use vstd::prelude::*;
use vstd::std_specs::cmp::PartialEqSpec;

verus! {

/// A cache of one entry keyed by a clonable key; a different key replaces
/// the entry.
pub struct Cache<K: PartialEq + Clone, V> {
    data: Option<(K, V)>,
}

impl<K: PartialEq + Clone, V> Default for Cache<K, V> {
    fn default() -> (r: Self)
        ensures
            r.content() is None,
    {
        Self::new()
    }
}

impl<K: PartialEq + Clone, V> Cache<K, V> {
    /// The cached entry, if any.
    pub closed spec fn content(self) -> Option<(K, V)> {
        self.data
    }

    /// The cache holds an entry whose key equals `key` by `K`'s equality.
    pub open spec fn holds_key(self, key: K) -> bool {
        self.content() matches Some((k, _)) && k.eq_spec(&key)
    }

    pub fn new() -> (r: Self)
        ensures
            r.content() is None,
    {
        Cache { data: None }
    }

    /// Replaces the cached entry.
    pub fn set(&mut self, key: K, value: V)
        ensures
            final(self).content() == Some((key, value)),
    {
        self.data = Some((key, value));
    }

    /// Empties the cache.
    pub fn clear(&mut self)
        ensures
            final(self).content() is None,
    {
        self.data = None;
    }

    /// Whether the cached key equals `key`.
    pub fn contains_key(&self, key: &K) -> (r: bool)
        ensures
            K::obeys_eq_spec() ==> r == self.holds_key(*key),
    {
        match &self.data {
            Some((k, _)) => k == key,
            None => false,
        }
    }

    pub fn get(&self) -> (r: Option<(&K, &V)>)
        ensures
            r is Some <==> self.content() is Some,
            r matches Some((k, v)) ==> (*k, *v) == self.content()->0,
    {
        match &self.data {
            Some((k, v)) => Some((k, v)),
            None => None,
        }
    }

    /// The cached entry with its value writable in place.
    pub fn get_mut(&mut self) -> (r: Option<(&K, &mut V)>)
        ensures
            r is Some <==> old(self).content() is Some,
            r is None ==> final(self).content() == old(self).content(),
            r matches Some((k, v)) ==> {
                &&& *k == (old(self).content()->0).0
                &&& *v == (old(self).content()->0).1
                &&& final(self).content() == Some(((old(self).content()->0).0, *final(v)))
            },
    {
        match &mut self.data {
            Some((k, v)) => Some((&*k, v)),
            None => None,
        }
    }

    /// Makes the cache hold `key`, storing `value` unless the cached key
    /// already equals `key`, and hands out the entry.
    pub fn get_or_insert(&mut self, key: &K, value: V) -> (r: (&K, &mut V))
        ensures
            K::obeys_eq_spec() && old(self).holds_key(*key) ==> {
                &&& *r.0 == (old(self).content()->0).0
                &&& *r.1 == (old(self).content()->0).1
            },
            K::obeys_eq_spec() && !old(self).holds_key(*key) ==> {
                &&& cloned(*key, *r.0)
                &&& *r.1 == value
            },
            final(self).content() == Some((*r.0, *final(r.1))),
    {
        self.get_or_insert_with(key, move || -> (v: V)
            ensures
                v == value,
            { value })
    }

    /// Makes the cache hold `key`, storing `V::default()` unless the cached
    /// key already equals `key`, and hands out the entry.
    pub fn get_or_insert_default(&mut self, key: &K) -> (r: (&K, &mut V)) where V: Default
        ensures
            K::obeys_eq_spec() && old(self).holds_key(*key) ==> {
                &&& *r.0 == (old(self).content()->0).0
                &&& *r.1 == (old(self).content()->0).1
            },
            K::obeys_eq_spec() && !old(self).holds_key(*key) ==> {
                &&& cloned(*key, *r.0)
                &&& call_ensures(V::default, (), *r.1)
            },
            final(self).content() == Some((*r.0, *final(r.1))),
    {
        self.get_or_insert_with(key, V::default)
    }

    /// Makes the cache hold `key`, computing its value with `f` (and a clone
    /// of `key`) unless the cached key already equals `key`, and hands out
    /// the entry.
    pub fn get_or_insert_with<F>(&mut self, key: &K, f: F) -> (r: (&K, &mut V)) where
        F: FnOnce() -> V,

        requires
            f.requires(()),
        ensures
            K::obeys_eq_spec() && old(self).holds_key(*key) ==> {
                &&& *r.0 == (old(self).content()->0).0
                &&& *r.1 == (old(self).content()->0).1
            },
            K::obeys_eq_spec() && !old(self).holds_key(*key) ==> {
                &&& cloned(*key, *r.0)
                &&& f.ensures((), *r.1)
            },
            final(self).content() == Some((*r.0, *final(r.1))),
    {
        let hit = match &self.data {
            Some((k, _)) => k == key,
            None => false,
        };
        if !hit {
            let k = key.clone();
            let value = f();
            self.set(k, value);
        }
        match &mut self.data {
            Some((k, v)) => (&*k, v),
            None => unreached(),
        }
    }

    /// As `get_or_insert_with`, and hands the entry that a different key
    /// replaces to `on_eviction` first.
    pub fn get_or_insert_with_eviction_callback<F, G>(
        &mut self,
        key: &K,
        f: F,
        on_eviction: G,
    ) -> (r: (&K, &mut V)) where F: FnOnce() -> V, G: FnOnce(K, V)
        requires
            f.requires(()),
            forall|k: K, v: V| on_eviction.requires((k, v)),
        ensures
            K::obeys_eq_spec() && old(self).holds_key(*key) ==> {
                &&& *r.0 == (old(self).content()->0).0
                &&& *r.1 == (old(self).content()->0).1
            },
            K::obeys_eq_spec() && !old(self).holds_key(*key) ==> {
                &&& cloned(*key, *r.0)
                &&& f.ensures((), *r.1)
                &&& old(self).content() matches Some((k, v)) ==> on_eviction.ensures((k, v), ())
            },
            final(self).content() == Some((*r.0, *final(r.1))),
    {
        let hit = match &self.data {
            Some((k, _)) => k == key,
            None => false,
        };
        if !hit {
            let mut old_data = None;
            std::mem::swap(&mut old_data, &mut self.data);
            if let Some((old_key, old_value)) = old_data {
                on_eviction(old_key, old_value);
            }
            let k = key.clone();
            let value = f();
            self.set(k, value);
        }
        match &mut self.data {
            Some((k, v)) => (&*k, v),
            None => unreached(),
        }
    }
}

} // verus!
