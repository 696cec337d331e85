use tea_core::single_cache::SingleCache;

#[test]
fn single_cache_insert_and_hit() {
    let mut c: SingleCache<u32, String> = SingleCache::new();
    assert!(c.get().is_none());
    {
        let (k, v) = c.get_or_insert_with(1, || "one".to_string());
        assert_eq!(*k, 1);
        assert_eq!(v, "one");
        v.push('!');
    }
    {
        // same key: the closure is not used and the edit is kept
        let (k, v) = c.get_or_insert_with(1, || "other".to_string());
        assert_eq!(*k, 1);
        assert_eq!(v, "one!");
    }
    {
        let (k, v) = c.get_or_insert(2, "two".to_string());
        assert_eq!(*k, 2);
        assert_eq!(v, "two");
    }
    {
        let (k, v) = c.get_or_insert_default(3);
        assert_eq!(*k, 3);
        assert_eq!(v, "");
    }
    assert_eq!(c.get(), Some((&3, &String::new())));
}

#[test]
fn single_cache_set_and_get_mut() {
    let mut c: SingleCache<&str, i32> = Default::default();
    assert!(c.get_mut().is_none());
    c.set("a", 1);
    if let Some((k, v)) = c.get_mut() {
        assert_eq!(*k, "a");
        *v = 5;
    }
    assert_eq!(c.get(), Some((&"a", &5)));
}
