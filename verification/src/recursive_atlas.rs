use vstd::prelude::*;
use crate::cache_node::{
    law_store_conserves_keys, law_store_keeps_squares, law_store_placement, law_held_squares_apart,
    law_store_sets_newest, law_newest_is_latest_time, lemma_latest_is_max, outcome_matches, pow_of_two, squares_apart, two_pow, CacheNode, ContentModel, NodeModel, Placed,
    StoreData,
    StoreOutcome,
};

verus! {

/// Identifies one cached glyph bitmap: a character, its font size scaled by
/// `N` and rounded, and the side of the square texture that holds it.
#[derive(Clone, Copy, PartialEq, Eq, Hash, Debug)]
pub struct CacheKey<const N: u32> {
    char: char,
    multiplied_font_size: u32,
    texture_size: u32,
}

impl<const N: u32> CacheKey<N> {
    pub closed spec fn spec_char(self) -> char {
        self.char
    }

    pub closed spec fn spec_multiplied_font_size(self) -> u32 {
        self.multiplied_font_size
    }

    pub closed spec fn spec_texture_size(self) -> u32 {
        self.texture_size
    }

    /// Builds a key from a font size that is already multiplied by `N` and rounded.
    pub fn from_scaled_size(char: char, multiplied_font_size: u32, texture_size: u32) -> (r: Self)
        ensures
            r.spec_char() == char,
            r.spec_multiplied_font_size() == multiplied_font_size,
            r.spec_texture_size() == texture_size,
    {
        CacheKey { char, multiplied_font_size, texture_size }
    }

    pub fn get_texture_size(&self) -> (r: u32)
        ensures
            r == self.spec_texture_size(),
    {
        self.texture_size
    }

    pub fn get_char(&self) -> (r: char)
        ensures
            r == self.spec_char(),
    {
        self.char
    }

    /// The font size multiplied by `N`, as stored.
    pub fn get_multiplied_font_size(&self) -> (r: u32)
        ensures
            r == self.spec_multiplied_font_size(),
    {
        self.multiplied_font_size
    }

    /// Field-by-field equality of two keys.
    pub fn same_key(&self, other: &Self) -> (r: bool)
        ensures
            r == (*self == *other),
    {
        self.char == other.char && self.multiplied_font_size == other.multiplied_font_size
            && self.texture_size == other.texture_size
    }
}


// MARK: key-to-placement table

/// The table that a list of `(key, placement)` entries stands for; a later
/// entry for the same key hides an earlier one.
pub open spec fn table_of<const N: u32>(s: Seq<(CacheKey<N>, StoreData<N>)>) -> Map<
    CacheKey<N>,
    StoreData<N>,
>
    decreases s.len(),
{
    if s.len() == 0 {
        Map::empty()
    } else {
        table_of(s.drop_last()).insert(s.last().0, s.last().1)
    }
}

/// The entries of `s` whose key is not `k`, in order.
pub open spec fn without_key<const N: u32>(s: Seq<(CacheKey<N>, StoreData<N>)>, k: CacheKey<N>) -> Seq<
    (CacheKey<N>, StoreData<N>),
>
    decreases s.len(),
{
    if s.len() == 0 {
        s
    } else if s.last().0 == k {
        without_key(s.drop_last(), k)
    } else {
        without_key(s.drop_last(), k).push(s.last())
    }
}

proof fn lemma_without_key<const N: u32>(s: Seq<(CacheKey<N>, StoreData<N>)>, k: CacheKey<N>)
    ensures
        table_of(without_key(s, k)) =~= table_of(s).remove(k),
    decreases s.len(),
{
    if s.len() > 0 {
        lemma_without_key(s.drop_last(), k);
        let w = without_key(s.drop_last(), k);
        if s.last().0 != k {
            assert(w.push(s.last()).drop_last() =~= w);
        }
    }
}

proof fn lemma_table_prefix<const N: u32>(s: Seq<(CacheKey<N>, StoreData<N>)>, i: int, k: CacheKey<N>)
    requires
        0 <= i <= s.len(),
        forall|j: int| i <= j < s.len() ==> (#[trigger] s[j]).0 != k,
    ensures
        table_of(s).contains_key(k) == table_of(s.take(i)).contains_key(k),
        table_of(s).contains_key(k) ==> table_of(s)[k] == table_of(s.take(i))[k],
    decreases s.len() - i,
{
    if i < s.len() {
        lemma_table_prefix(s.drop_last(), i, k);
        assert(s.drop_last().take(i) =~= s.take(i));
    } else {
        assert(s.take(i) =~= s);
    }
}

// MARK: RecursiveAtlas

/// The table, tree and clock after storing `key`, and what the store returns:
/// a key already present is answered from the table; otherwise it is placed
/// in the tree at the current clock, the evicted keys leave the table and the
/// new placement enters it.
pub open spec fn atlas_store<const N: u32>(
    table: Map<CacheKey<N>, StoreData<N>>,
    tree: NodeModel<N>,
    clock: u32,
    key: CacheKey<N>,
) -> (Map<CacheKey<N>, StoreData<N>>, NodeModel<N>, u32, Option<StoreData<N>>) {
    if table.contains_key(key) {
        (table, tree, clock, Some(table[key]))
    } else {
        let (n, o) = tree.store(key, clock);
        match o {
            None => (table, tree, clock, None),
            Some(o) => (
                table.remove_keys(o.dead.to_set()).insert(key, placement(o)),
                n,
                (clock + 1) as u32,
                Some(placement(o)),
            ),
        }
    }
}

/// The table lists exactly the keys that the tree holds, each once, and
/// each entry is recorded under its own key.
pub open spec fn consistent<const N: u32>(
    table: Map<CacheKey<N>, StoreData<N>>,
    tree: NodeModel<N>,
) -> bool {
    &&& table.dom() == tree.items().to_set()
    &&& tree.items().no_duplicates()
    &&& forall|k: CacheKey<N>| #[trigger] table.contains_key(k) ==> table[k].key == k
}

proof fn lemma_placement<const N: u32>(sd: StoreData<N>, o: StoreOutcome<N>)
    requires
        sd.key == o.key,
        sd.atlas_x_range[0] == o.x_range.0,
        sd.atlas_x_range[1] == o.x_range.1,
        sd.atlas_y_range[0] == o.y_range.0,
        sd.atlas_y_range[1] == o.y_range.1,
    ensures
        sd == placement(o),
{
    broadcast use vstd::array::group_array_axioms;

    let p = placement(o);
    assert(p.atlas_x_range[0] == o.x_range.0 as u32);
    assert(sd.atlas_x_range =~= p.atlas_x_range);
    assert(sd.atlas_y_range =~= p.atlas_y_range);
}

/// The ranges recorded for `k`, as a square.
pub open spec fn recorded_square<const N: u32>(k: CacheKey<N>, d: StoreData<N>) -> Placed<N> {
    Placed {
        key: k,
        x: (d.atlas_x_range[0] as int, d.atlas_x_range[1] as int),
        y: (d.atlas_y_range[0] as int, d.atlas_y_range[1] as int),
    }
}

/// Every recorded placement is a square that the tree holds for its key.
pub open spec fn placements_recorded<const N: u32>(
    table: Map<CacheKey<N>, StoreData<N>>,
    tree: NodeModel<N>,
) -> bool {
    forall|k: CacheKey<N>| #[trigger]
        table.contains_key(k) ==> tree.squares().contains(recorded_square(k, table[k]))
}

/// Two recorded placements share no pixel (the ranges are inclusive).
pub open spec fn ranges_apart<const N: u32>(a: StoreData<N>, b: StoreData<N>) -> bool {
    ||| a.atlas_x_range[1] < b.atlas_x_range[0]
    ||| b.atlas_x_range[1] < a.atlas_x_range[0]
    ||| a.atlas_y_range[1] < b.atlas_y_range[0]
    ||| b.atlas_y_range[1] < a.atlas_y_range[0]
}

/// The placement record that a store outcome stands for.
pub open spec fn placement<const N: u32>(o: StoreOutcome<N>) -> StoreData<N> {
    StoreData {
        key: o.key,
        atlas_x_range: [o.x_range.0 as u32, o.x_range.1 as u32],
        atlas_y_range: [o.y_range.0 as u32, o.y_range.1 as u32],
    }
}

/// The bookkeeping of a square glyph atlas: which key occupies which part of
/// the texture. The side of the atlas is `2^(levels - 1) * min_size`, and it
/// can be split `levels - 1` times into quadrants.
pub struct RecursiveAtlas<const N: u32> {
    label: Option<String>,
    atlas_size: u32,
    map: Vec<(CacheKey<N>, StoreData<N>)>,
    node: CacheNode<N>,
    levels: u32,
    min_size: u32,
    time: u32,
}

impl<const N: u32> RecursiveAtlas<N> {
    /// Which key is placed where.
    pub closed spec fn table(self) -> Map<CacheKey<N>, StoreData<N>> {
        table_of(self.map@)
    }

    /// The placement tree.
    pub closed spec fn tree(self) -> NodeModel<N> {
        self.node@
    }

    /// How many keys have been newly placed so far; the store time of the next one.
    pub closed spec fn clock(self) -> u32 {
        self.time
    }

    pub closed spec fn spec_atlas_size(self) -> u32 {
        self.atlas_size
    }

    pub closed spec fn spec_levels(self) -> u32 {
        self.levels
    }

    pub closed spec fn spec_min_size(self) -> u32 {
        self.min_size
    }

    pub closed spec fn spec_label(self) -> Option<String> {
        self.label
    }

    /// The atlas is well formed: the tree is, and it covers the whole atlas.
    pub closed spec fn wf(self) -> bool {
        &&& self.node.wf()
        &&& self.node@.size == self.atlas_size
        &&& self.node@.level == self.levels - 1
        &&& self.node@.x0 == 0
        &&& self.node@.y0 == 0
        &&& self.atlas_size > 0
        &&& consistent(self.table(), self.tree())
        &&& placements_recorded(self.table(), self.tree())
        &&& self.tree().newest() <= self.clock()
    }

    /// An empty atlas of side `2^(levels - 1) * min_size`.
    pub fn new(label: Option<&str>, levels: u32, min_size: u32) -> (r: Self)
        requires
            levels > 0,
            min_size > 0,
            levels - 1 < 32,
            two_pow((levels - 1) as nat) * min_size <= u32::MAX,
        ensures
            r.wf(),
            r.spec_atlas_size() == two_pow((levels - 1) as nat) * min_size,
            r.spec_levels() == levels,
            r.spec_min_size() == min_size,
            r.spec_label() is Some <==> label is Some,
            r.spec_label() matches Some(l) ==> l@ == label->0@,
            r.table() == Map::<CacheKey<N>, StoreData<N>>::empty(),
            r.tree().items() == Seq::<CacheKey<N>>::empty(),
            r.tree() == (NodeModel::<N> {
                size: r.spec_atlas_size() as int,
                level: levels - 1,
                x0: 0,
                x1: r.spec_atlas_size() - 1,
                y0: 0,
                y1: r.spec_atlas_size() - 1,
                content: ContentModel::Split(Seq::empty()),
            }),
            r.clock() == 0,
    {
        let p = pow_of_two(levels - 1);
        let atlas_size = p * min_size;
        proof {
            assert(p * min_size >= 1) by (nonlinear_arith)
                requires
                    p >= 1,
                    min_size >= 1,
            ;
            assert((atlas_size as int) % (two_pow((levels - 1) as nat) as int) == 0) by (nonlinear_arith)
                requires
                    atlas_size == p * min_size,
                    p >= 1,
                    p == two_pow((levels - 1) as nat),
            ;
        }
        let node = CacheNode::new(atlas_size, levels - 1, 0, 0).unwrap();
        let label = match label {
            Some(l) => Some(l.to_string()),
            None => None,
        };
        let map: Vec<(CacheKey<N>, StoreData<N>)> = Vec::new();
        let r = RecursiveAtlas { label, atlas_size, map, node, levels, min_size, time: 0 };
        proof {
            assert(map@.len() == 0);
            assert(r.tree().items() =~= Seq::<CacheKey<N>>::empty());
            assert(r.tree().items().to_set() =~= Set::<CacheKey<N>>::empty());
            assert(r.table() =~= Map::<CacheKey<N>, StoreData<N>>::empty());
        }
        r
    }

    /// Whether the clock can still count a new placement.
    pub fn clock_left(&self) -> (r: bool)
        ensures
            r == (self.clock() < u32::MAX),
    {
        self.time < u32::MAX
    }

    pub fn get_label(&self) -> (r: Option<&String>)
        ensures
            r is Some <==> self.spec_label() is Some,
            r matches Some(l) ==> *l == self.spec_label()->0,
    {
        self.label.as_ref()
    }

    pub fn get_atlas_size(&self) -> (r: u32)
        ensures
            r == self.spec_atlas_size(),
    {
        self.atlas_size
    }

    pub fn get_levels(&self) -> (r: u32)
        ensures
            r == self.spec_levels(),
    {
        self.levels
    }

    pub fn get_min_size(&self) -> (r: u32)
        ensures
            r == self.spec_min_size(),
    {
        self.min_size
    }

    /// Where `key` is placed, if it is in the atlas.
    pub fn get(&self, key: &CacheKey<N>) -> (r: Option<StoreData<N>>)
        ensures
            r == (if self.table().contains_key(*key) {
                Some(self.table()[*key])
            } else {
                None
            }),
    {
        let mut i = self.map.len();
        while i > 0
            invariant
                i <= self.map@.len(),
                forall|j: int| i <= j < self.map@.len() ==> (#[trigger] self.map@[j]).0 != *key,
            decreases i,
        {
            i = i - 1;
            if self.map[i].0.same_key(key) {
                proof {
                    lemma_table_prefix(self.map@, i + 1, *key);
                    assert(self.map@.take(i + 1).drop_last() =~= self.map@.take(i as int));
                }
                return Some(self.map[i].1);
            }
        }
        proof {
            lemma_table_prefix(self.map@, 0, *key);
            assert(self.map@.take(0).len() == 0);
        }
        None
    }

    /// Drops every entry for `k` from the table.
    fn remove_key(&mut self, k: &CacheKey<N>)
        ensures
            table_of(final(self).map@) == table_of(old(self).map@).remove(*k),
            final(self).node == old(self).node,
            final(self).time == old(self).time,
            final(self).label == old(self).label,
            final(self).atlas_size == old(self).atlas_size,
            final(self).levels == old(self).levels,
            final(self).min_size == old(self).min_size,
    {
        let mut out: Vec<(CacheKey<N>, StoreData<N>)> = Vec::new();
        let mut i: usize = 0;
        while i < self.map.len()
            invariant
                i <= self.map@.len(),
                out@ == without_key(self.map@.take(i as int), *k),
            decreases self.map@.len() - i,
        {
            let e = self.map[i];
            proof {
                assert(self.map@.take(i + 1).drop_last() =~= self.map@.take(i as int));
                assert(self.map@.take(i + 1).last() == e);
            }
            if !e.0.same_key(k) {
                out.push(e);
            }
            i = i + 1;
        }
        proof {
            assert(self.map@.take(self.map@.len() as int) =~= self.map@);
            lemma_without_key(self.map@, *k);
        }
        self.map = out;
    }

    /// Places `key` in the atlas unless it is already there, evicting what
    /// has to make room. Returns where the key is placed, or `None` when its
    /// texture is larger than the atlas.
    pub fn store(&mut self, key: &CacheKey<N>) -> (r: Option<StoreData<N>>)
        requires
            old(self).wf(),
            old(self).clock() < u32::MAX || old(self).table().contains_key(*key)
                || key.spec_texture_size() > old(self).spec_atlas_size(),
        ensures
            final(self).wf(),
            final(self).spec_label() == old(self).spec_label(),
            final(self).spec_atlas_size() == old(self).spec_atlas_size(),
            final(self).spec_levels() == old(self).spec_levels(),
            final(self).spec_min_size() == old(self).spec_min_size(),
            (final(self).table(), final(self).tree(), final(self).clock(), r) == atlas_store(
                old(self).table(),
                old(self).tree(),
                old(self).clock(),
                *key,
            ),
    {
        if let Some(sd) = self.get(key) {
            return Some(sd);
        }
        proof {
            law_store_conserves_keys(self.node@, *key, self.time);
            law_store_sets_newest(self.node@, *key, self.time);
        }
        let res = self.node.store(*key, self.time);
        match res {
            None => None,
            Some(res) => {
                self.time = self.time + 1;
                let ghost table0 = table_of(self.map@);
                let mut i: usize = 0;
                while i < res.dead_items.len()
                    invariant
                        i <= res.dead_items@.len(),
                        table_of(self.map@) == table0.remove_keys(
                            res.dead_items@.take(i as int).to_set(),
                        ),
                        self.node.wf(),
                        self.node@ == old(self).node@.store(*key, old(self).time).0,
                        self.time == old(self).time + 1,
                        self.label == old(self).label,
                        self.atlas_size == old(self).atlas_size,
                        self.levels == old(self).levels,
                        self.min_size == old(self).min_size,
                    decreases res.dead_items@.len() - i,
                {
                    self.remove_key(&res.dead_items[i]);
                    proof {
                        let d = res.dead_items@;
                        assert(d.take(i + 1) =~= d.take(i as int).push(d[i as int]));
                        broadcast use vstd::seq_lib::group_seq_properties;

                        assert(d.take(i + 1).to_set() =~= d.take(i as int).to_set().insert(
                            d[i as int],
                        ));
                        assert(table0.remove_keys(d.take(i + 1).to_set()) =~= table0.remove_keys(
                            d.take(i as int).to_set(),
                        ).remove(d[i as int]));
                    }
                    i = i + 1;
                }
                proof {
                    assert(res.dead_items@.take(res.dead_items@.len() as int) =~= res.dead_items@);
                }
                let sd = res.store_data;
                proof {
                    lemma_placement(sd, old(self).node@.store(*key, old(self).time).1->0);
                }
                let ghost before = self.map@;
                self.map.push((*key, sd));
                proof {
                    assert(self.map@.drop_last() =~= before);
                    law_store_keeps_consistent(
                        old(self).table(),
                        old(self).tree(),
                        old(self).time,
                        *key,
                    );
                    law_store_placement(old(self).tree(), *key, old(self).time);
                    law_store_keeps_placements(
                        old(self).table(),
                        old(self).tree(),
                        old(self).time,
                        *key,
                    );
                }
                Some(sd)
            },
        }
    }

    /// Places `key` as `store` does and, only when the key was not in the
    /// atlas before and found room, calls `f` for the texture bytes to
    /// upload into its place. Returns the placement and those bytes.
    pub fn get_or_insert_with<F: FnOnce() -> Vec<u8>>(&mut self, key: &CacheKey<N>, f: F) -> (r:
        Option<(StoreData<N>, Option<Vec<u8>>)>)
        requires
            old(self).wf(),
            old(self).clock() < u32::MAX || old(self).table().contains_key(*key)
                || key.spec_texture_size() > old(self).spec_atlas_size(),
            f.requires(()),
        ensures
            final(self).wf(),
            final(self).spec_label() == old(self).spec_label(),
            final(self).spec_atlas_size() == old(self).spec_atlas_size(),
            final(self).spec_levels() == old(self).spec_levels(),
            final(self).spec_min_size() == old(self).spec_min_size(),
            (final(self).table(), final(self).tree(), final(self).clock(), match r {
                Some((d, _)) => Some(d),
                None => None,
            }) == atlas_store(old(self).table(), old(self).tree(), old(self).clock(), *key),
            r matches Some((_, bytes)) ==> (bytes is Some <==> !old(self).table().contains_key(
                *key,
            )),
            r matches Some((_, Some(bytes))) ==> f.ensures((), bytes),
    {
        let fresh = self.get(key).is_none();
        match self.store(key) {
            None => None,
            Some(d) => {
                if fresh {
                    let bytes = f();
                    Some((d, Some(bytes)))
                } else {
                    Some((d, None))
                }
            },
        }
    }
}


// MARK: laws

/// Storing keeps the table in step with the tree: afterwards the table still
/// lists exactly the keys that the tree holds, each once.
pub proof fn law_store_keeps_consistent<const N: u32>(
    table: Map<CacheKey<N>, StoreData<N>>,
    tree: NodeModel<N>,
    clock: u32,
    key: CacheKey<N>,
)
    requires
        tree.wf(),
        consistent(table, tree),
    ensures
        ({
            let (t2, n2, c2, r) = atlas_store(table, tree, clock, key);
            consistent(t2, n2)
        }),
{
    broadcast use vstd::seq_lib::group_to_multiset_ensures;
    broadcast use vstd::multiset::group_multiset_axioms;
    broadcast use vstd::seq_lib::group_seq_properties;

    if !table.contains_key(key) {
        law_store_conserves_keys(tree, key, clock);
        let (n, o) = tree.store(key, clock);
        if let Some(o) = o {
            let (t2, n2, c2, r) = atlas_store(table, tree, clock, key);
            let a = tree.items();
            let b = n.items();
            let d = o.dead;
            assert(!a.contains(key)) by {
                assert(!table.dom().contains(key));
                assert(!a.to_set().contains(key));
            }
            a.lemma_multiset_has_no_duplicates();
            assert forall|x: CacheKey<N>| b.to_multiset().count(x) + d.to_multiset().count(x) <= 1
                && (b.to_multiset().count(x) + d.to_multiset().count(x) == a.to_multiset().count(x)
                + if x == key {
                1int
            } else {
                0int
            }) by {
                assert(a.to_multiset().insert(key).count(x) == b.to_multiset().add(
                    d.to_multiset(),
                ).count(x));
                if a.to_multiset().contains(x) {
                    assert(a.to_multiset().count(x) == 1);
                }
            }
            assert forall|x: CacheKey<N>| b.to_multiset().contains(x) implies b.to_multiset().count(x)
                == 1 by {
                assert(b.to_multiset().count(x) + d.to_multiset().count(x) <= 1);
            }
            b.lemma_multiset_has_no_duplicates_conv();
            assert forall|x: CacheKey<N>| t2.dom().contains(x) <==> b.to_set().contains(x) by {
                assert(b.to_multiset().count(x) + d.to_multiset().count(x) <= 1);
                if x == key {
                    assert(b.contains(key));
                } else {
                    assert(table.dom().contains(x) <==> a.contains(x));
                    assert(b.contains(x) <==> b.to_multiset().count(x) > 0);
                    assert(d.contains(x) <==> d.to_multiset().count(x) > 0);
                    assert(a.contains(x) <==> a.to_multiset().count(x) > 0);
                }
            }
            assert(t2.dom() =~= b.to_set());
        }
    }
}

/// Storing keeps every recorded placement true to the tree: the keys that
/// stay keep their squares, and the new key's recorded ranges are the
/// square it now holds.
pub proof fn law_store_keeps_placements<const N: u32>(
    table: Map<CacheKey<N>, StoreData<N>>,
    tree: NodeModel<N>,
    clock: u32,
    key: CacheKey<N>,
)
    requires
        tree.wf(),
        tree.size > 0,
        placements_recorded(table, tree),
    ensures
        ({
            let (t2, n2, c2, r) = atlas_store(table, tree, clock, key);
            placements_recorded(t2, n2)
        }),
{
    broadcast use vstd::seq_lib::group_seq_properties;

    if !table.contains_key(key) {
        let (n, o) = tree.store(key, clock);
        if let Some(o) = o {
            let (t2, n2, c2, r) = atlas_store(table, tree, clock, key);
            law_store_keeps_squares(tree, key, clock);
            law_store_placement(tree, key, clock);
            assert(recorded_square(key, placement(o)) == Placed { key, x: o.x_range, y: o.y_range });
            assert forall|k: CacheKey<N>| #[trigger] t2.contains_key(k) implies n2.squares().contains(
                recorded_square(k, t2[k]),
            ) by {
                if k != key {
                    assert(table.contains_key(k));
                    assert(!o.dead.to_set().contains(k));
                    assert(!o.dead.contains(k));
                    assert(tree.squares().contains(recorded_square(k, table[k])));
                    assert(t2[k] == table[k]);
                }
            }
        }
    }
}

/// Two different glyphs in the atlas never share a pixel, and each lies
/// inside the atlas.
pub proof fn law_placed_glyphs_do_not_overlap<const N: u32>(
    a: RecursiveAtlas<N>,
    k1: CacheKey<N>,
    k2: CacheKey<N>,
)
    requires
        a.wf(),
        a.table().contains_key(k1),
        a.table().contains_key(k2),
        k1 != k2,
    ensures
        ranges_apart(a.table()[k1], a.table()[k2]),
        a.table()[k1].atlas_x_range[0] <= a.table()[k1].atlas_x_range[1] < a.spec_atlas_size(),
        a.table()[k1].atlas_y_range[0] <= a.table()[k1].atlas_y_range[1] < a.spec_atlas_size(),
{
    let t = a.tree();
    let p1 = recorded_square(k1, a.table()[k1]);
    let p2 = recorded_square(k2, a.table()[k2]);
    assert(t.squares().contains(p1));
    assert(t.squares().contains(p2));
    let m1 = choose|m: int| 0 <= m < t.squares().len() && t.squares()[m] == p1;
    let m2 = choose|m: int| 0 <= m < t.squares().len() && t.squares()[m] == p2;
    law_held_squares_apart(t);
    assert(m1 != m2);
    if m1 < m2 {
        assert(squares_apart(t.squares()[m1], t.squares()[m2]));
    } else {
        assert(squares_apart(t.squares()[m2], t.squares()[m1]));
    }
    assert(t.covers(t.squares()[m1]));
}

/// A key that a store reports as placed is found there by the next lookup.
pub proof fn law_get_after_store<const N: u32>(
    table: Map<CacheKey<N>, StoreData<N>>,
    tree: NodeModel<N>,
    clock: u32,
    key: CacheKey<N>,
)
    ensures
        ({
            let (t2, n2, c2, r) = atlas_store(table, tree, clock, key);
            r matches Some(sd) ==> t2.contains_key(key) && t2[key] == sd
        }),
{
}

/// Keys that a store evicts are no longer found, unless it is the stored key.
pub proof fn law_evicted_keys_gone<const N: u32>(
    table: Map<CacheKey<N>, StoreData<N>>,
    tree: NodeModel<N>,
    clock: u32,
    key: CacheKey<N>,
)
    ensures
        ({
            let (t2, n2, c2, r) = atlas_store(table, tree, clock, key);
            !table.contains_key(key) ==> (tree.store(key, clock).1 matches Some(o) ==> forall|
                d: CacheKey<N>,
            | o.dead.contains(d) && d != key ==> !t2.contains_key(d))
        }),
{
}

/// A store is refused exactly when the key is not already present and its
/// texture is larger than the whole atlas; a refused store changes nothing.
pub proof fn law_store_refused<const N: u32>(
    table: Map<CacheKey<N>, StoreData<N>>,
    tree: NodeModel<N>,
    clock: u32,
    key: CacheKey<N>,
)
    requires
        tree.wf(),
    ensures
        ({
            let (t2, n2, c2, r) = atlas_store(table, tree, clock, key);
            &&& r is None <==> (!table.contains_key(key) && key.spec_texture_size() > tree.size)
            &&& r is None ==> t2 == table && n2 == tree && c2 == clock
        }),
{
    law_store_conserves_keys(tree, key, clock);
}

/// A glyph not yet held is stored at the current clock, and the clock
/// then moves on by exactly one; a glyph already held, or one that is
/// refused, leaves the clock and the tree as they were. So, with every held
/// glyph stored no later than the clock, the new glyph is the latest held
/// and the next store comes strictly after it: store times follow the
/// order of stores.
pub proof fn law_store_advances_clock<const N: u32>(
    table: Map<CacheKey<N>, StoreData<N>>,
    tree: NodeModel<N>,
    clock: u32,
    key: CacheKey<N>,
)
    requires
        tree.wf(),
        tree.newest() <= clock,
        clock < u32::MAX,
    ensures
        ({
            let (t2, n2, c2, r) = atlas_store(table, tree, clock, key);
            &&& !table.contains_key(key) && r is Some ==> {
                &&& c2 == clock + 1
                &&& n2.items().contains(key)
                &&& n2.newest() == clock
                &&& forall|i: int| 0 <= i < n2.times().len() ==> #[trigger] n2.times()[i] <= clock
            }
            &&& table.contains_key(key) || r is None ==> c2 == clock && n2 == tree
            &&& n2.newest() <= c2
        }),
{
    law_store_sets_newest(tree, key, clock);
    law_store_conserves_keys(tree, key, clock);
    let n2 = atlas_store(table, tree, clock, key).1;
    law_newest_is_latest_time(n2);
    lemma_latest_is_max(n2.times());
}

/// Every glyph an atlas holds was stored no later than its clock, so the
/// next store, which uses the clock and then advances it, is later than all
/// of them.
pub proof fn law_held_glyphs_not_after_clock<const N: u32>(a: RecursiveAtlas<N>)
    requires
        a.wf(),
    ensures
        a.tree().newest() <= a.clock(),
        forall|i: int| 0 <= i < a.tree().times().len() ==> #[trigger] a.tree().times()[i] <= a.clock(),
{
    law_newest_is_latest_time(a.tree());
    lemma_latest_is_max(a.tree().times());
}

} // verus!
