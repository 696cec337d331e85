use std::sync::{
    atomic::{AtomicUsize, Ordering},
    Arc, Mutex,
};
use tea_core::cache::Cache;

#[test]
fn cache_basic_set_get_clear() {
    let mut c: Cache<String, i32> = Cache::new();
    assert!(c.get().is_none());
    assert!(c.get_mut().is_none());

    c.set("a".to_string(), 1);

    {
        let (k, v) = c.get().expect("value must be present");
        assert_eq!(k, "a");
        assert_eq!(*v, 1);
    }

    {
        let (k, v) = c.get_mut().expect("value must be present");
        assert_eq!(k, "a");
        *v += 1;
    }

    {
        let (k, v) = c.get().expect("value must be present");
        assert_eq!(k, "a");
        assert_eq!(*v, 2);
    }

    c.clear();
    assert!(c.get().is_none());
    assert!(c.get_mut().is_none());
}

#[test]
fn cache_get_or_insert_variants_and_closure_calls() {
    let mut c: Cache<String, i32> = Cache::new();
    let calls = Arc::new(AtomicUsize::new(0));

    // insert with closure
    {
        let calls1 = calls.clone();
        let (k, v) = c.get_or_insert_with(&"a".to_string(), || {
            calls1.fetch_add(1, Ordering::SeqCst);
            5
        });
        assert_eq!(k, "a");
        assert_eq!(*v, 5);
    }
    assert_eq!(calls.load(Ordering::SeqCst), 1);

    // same key -> closure should NOT be called, value unchanged
    {
        let calls2 = calls.clone();
        let (k, v) = c.get_or_insert_with(&"a".to_string(), || {
            calls2.fetch_add(1, Ordering::SeqCst);
            999
        });
        assert_eq!(k, "a");
        assert_eq!(*v, 5);
    }
    assert_eq!(
        calls.load(Ordering::SeqCst),
        1,
        "closure must not run for same key"
    );

    // different key via get_or_insert -> value replaced
    {
        let (k, v) = c.get_or_insert(&"b".to_string(), 7);
        assert_eq!(k, "b");
        assert_eq!(*v, 7);
    }

    // same key with default -> no replacement
    {
        let (k, v) = c.get_or_insert_default(&"b".to_string());
        assert_eq!(k, "b");
        assert_eq!(*v, 7);
    }

    // new key with default -> insert default
    {
        let (k, v) = c.get_or_insert_default(&"c".to_string());
        assert_eq!(k, "c");
        assert_eq!(*v, 0);
    }
}

#[test]
fn cache_eviction_callback() {
    let mut c: Cache<String, i32> = Cache::new();
    c.set("x".to_string(), 1);

    let evicted: Arc<Mutex<Vec<(String, i32)>>> = Arc::new(Mutex::new(Vec::new()));
    let calls = Arc::new(AtomicUsize::new(0));

    // same key -> no eviction, no initializer call
    {
        let calls1 = calls.clone();
        let evicted1 = evicted.clone();
        let (k, v) = c.get_or_insert_with_eviction_callback(
            &"x".to_string(),
            || {
                calls1.fetch_add(1, Ordering::SeqCst);
                2
            },
            move |old_k, old_v| {
                evicted1.lock().expect("poison").push((old_k, old_v));
            },
        );
        assert_eq!(k, "x");
        assert_eq!(*v, 1);
    }
    assert_eq!(calls.load(Ordering::SeqCst), 0);
    assert!(evicted.lock().expect("poison").is_empty());

    // different key -> eviction callback must run, initializer runs once
    {
        let calls2 = calls.clone();
        let evicted2 = evicted.clone();
        let (k, v) = c.get_or_insert_with_eviction_callback(
            &"y".to_string(),
            || {
                calls2.fetch_add(1, Ordering::SeqCst);
                3
            },
            move |old_k, old_v| {
                evicted2.lock().expect("poison").push((old_k, old_v));
            },
        );
        assert_eq!(k, "y");
        assert_eq!(*v, 3);
    }
    assert_eq!(calls.load(Ordering::SeqCst), 1);
    let ev = evicted.lock().expect("poison").clone();
    assert_eq!(ev, vec![("x".to_string(), 1)]);
}

#[test]
fn cache_contains_key_and_default() {
    let mut c: Cache<u32, u32> = Default::default();
    assert!(!c.contains_key(&1));
    c.set(1, 10);
    assert!(c.contains_key(&1));
    assert!(!c.contains_key(&2));
}
