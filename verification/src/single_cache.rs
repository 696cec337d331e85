use vstd::prelude::*;
use vstd::std_specs::cmp::PartialEqSpec;

verus! {

/// A cache of one entry: it remembers the value computed for the last key.
pub struct SingleCache<K: PartialEq, V> {
    data: Option<(K, V)>,
}

impl<K: PartialEq, V> Default for SingleCache<K, V> {
    fn default() -> (r: Self)
        ensures
            r.content() is None,
    {
        Self::new()
    }
}

impl<K: PartialEq, V> SingleCache<K, V> {
    /// The cached entry, if any.
    pub closed spec fn content(self) -> Option<(K, V)> {
        self.data
    }

    /// The cache holds an entry whose key equals `key` by `K`'s equality.
    pub open spec fn holds_key(self, key: K) -> bool {
        self.content() matches Some((k, _)) && k.eq_spec(&key)
    }

    pub fn new() -> (r: Self)
        ensures
            r.content() is None,
    {
        SingleCache { data: None }
    }

    /// Replaces the cached entry.
    pub fn set(&mut self, key: K, value: V)
        ensures
            final(self).content() == Some((key, value)),
    {
        self.data = Some((key, value));
    }

    pub fn get(&self) -> (r: Option<(&K, &V)>)
        ensures
            r is Some <==> self.content() is Some,
            r matches Some((k, v)) ==> (*k, *v) == self.content()->0,
    {
        match &self.data {
            Some((k, v)) => Some((k, v)),
            None => None,
        }
    }

    /// The cached entry with its value writable in place.
    pub fn get_mut(&mut self) -> (r: Option<(&K, &mut V)>)
        ensures
            r is Some <==> old(self).content() is Some,
            r is None ==> final(self).content() == old(self).content(),
            r matches Some((k, v)) ==> {
                &&& *k == (old(self).content()->0).0
                &&& *v == (old(self).content()->0).1
                &&& final(self).content() == Some(((old(self).content()->0).0, *final(v)))
            },
    {
        match &mut self.data {
            Some((k, v)) => Some((&*k, v)),
            None => None,
        }
    }

    /// Makes the cache hold `key`, storing `value` unless the cached key
    /// already equals `key`, and hands out the entry.
    pub fn get_or_insert(&mut self, key: K, value: V) -> (r: (&K, &mut V))
        ensures
            K::obeys_eq_spec() && old(self).holds_key(key) ==> {
                &&& *r.0 == (old(self).content()->0).0
                &&& *r.1 == (old(self).content()->0).1
            },
            K::obeys_eq_spec() && !old(self).holds_key(key) ==> {
                &&& *r.0 == key
                &&& *r.1 == value
            },
            final(self).content() == Some((*r.0, *final(r.1))),
    {
        self.get_or_insert_with(key, move || -> (v: V)
            ensures
                v == value,
            { value })
    }

    /// Makes the cache hold `key`, storing `V::default()` unless the cached
    /// key already equals `key`, and hands out the entry.
    pub fn get_or_insert_default(&mut self, key: K) -> (r: (&K, &mut V)) where V: Default
        ensures
            K::obeys_eq_spec() && old(self).holds_key(key) ==> {
                &&& *r.0 == (old(self).content()->0).0
                &&& *r.1 == (old(self).content()->0).1
            },
            K::obeys_eq_spec() && !old(self).holds_key(key) ==> {
                &&& *r.0 == key
                &&& call_ensures(V::default, (), *r.1)
            },
            final(self).content() == Some((*r.0, *final(r.1))),
    {
        self.get_or_insert_with(key, V::default)
    }

    /// Makes the cache hold `key`, computing its value with `f` unless the
    /// cached key already equals `key`, and hands out the entry.
    pub fn get_or_insert_with<F>(&mut self, key: K, f: F) -> (r: (&K, &mut V)) where
        F: FnOnce() -> V,

        requires
            f.requires(()),
        ensures
            K::obeys_eq_spec() && old(self).holds_key(key) ==> {
                &&& *r.0 == (old(self).content()->0).0
                &&& *r.1 == (old(self).content()->0).1
            },
            K::obeys_eq_spec() && !old(self).holds_key(key) ==> {
                &&& *r.0 == key
                &&& f.ensures((), *r.1)
            },
            final(self).content() == Some((*r.0, *final(r.1))),
    {
        let hit = match &self.data {
            Some((k, _)) => *k == key,
            None => false,
        };
        if !hit {
            let value = f();
            self.set(key, value);
        }
        match &mut self.data {
            Some((k, v)) => (&*k, v),
            None => unreached(),
        }
    }
}

} // verus!
