use vstd::prelude::*;

verus! {

/// One dirty flag and the node it reports to.
#[derive(Clone, Copy)]
struct DirtyCell {
    flag: bool,
    parent: Option<usize>,
}

/// The flags of a forest of dirty-flag nodes. A node is created after its
/// parent, so every parent has a smaller index than its children.
pub struct DirtyForest {
    cells: Vec<DirtyCell>,
}

/// A handle on one node of a `DirtyForest`.
#[derive(Clone, Copy, PartialEq, Eq, Debug)]
pub struct BackPropDirty {
    id: usize,
}

/// `a` is a proper ancestor of `i` along the parent links.
pub open spec fn is_ancestor(parents: Seq<Option<usize>>, a: int, i: int) -> bool
    decreases i,
{
    if 0 <= i < parents.len() {
        match parents[i] {
            Some(p) => if 0 <= p < i {
                p == a || is_ancestor(parents, a, p as int)
            } else {
                false
            },
            None => false,
        }
    } else {
        false
    }
}

/// The flags after marking node `i` dirty: walk from `i` towards the root,
/// setting each flag, and stop at the first node that was already dirty.
pub open spec fn mark_spec(flags: Seq<bool>, parents: Seq<Option<usize>>, i: int) -> Seq<bool>
    decreases i,
{
    if !(0 <= i < flags.len()) || flags[i] {
        flags
    } else {
        let f2 = flags.update(i, true);
        match parents[i] {
            Some(p) => if 0 <= p < i {
                mark_spec(f2, parents, p as int)
            } else {
                f2
            },
            None => f2,
        }
    }
}

/// Every dirty node's ancestors are dirty.
pub open spec fn closed_upward(flags: Seq<bool>, parents: Seq<Option<usize>>) -> bool {
    forall|j: int, a: int|
        0 <= j < flags.len() && #[trigger] flags[j] && #[trigger] is_ancestor(parents, a, j)
            ==> flags[a]
}

impl DirtyForest {
    pub closed spec fn flags(self) -> Seq<bool> {
        self.cells@.map_values(|c: DirtyCell| c.flag)
    }

    pub closed spec fn parents(self) -> Seq<Option<usize>> {
        self.cells@.map_values(|c: DirtyCell| c.parent)
    }

    /// Every parent link points to an earlier node.
    pub open spec fn wf(self) -> bool {
        &&& self.flags().len() == self.parents().len()
        &&& forall|i: int|
            0 <= i < self.parents().len() ==> (#[trigger] self.parents()[i] matches Some(p) ==> p
                < i)
    }

    /// A forest without nodes.
    pub fn new() -> (r: Self)
        ensures
            r.wf(),
            r.flags() == Seq::<bool>::empty(),
            r.parents() == Seq::<Option<usize>>::empty(),
    {
        let r = DirtyForest { cells: Vec::new() };
        proof {
            assert(r.flags() =~= Seq::<bool>::empty());
            assert(r.parents() =~= Seq::<Option<usize>>::empty());
        }
        r
    }

    pub fn len(&self) -> (r: usize)
        ensures
            r == self.flags().len(),
    {
        self.cells.len()
    }

    fn add(&mut self, flag: bool, parent: Option<usize>) -> (r: BackPropDirty)
        requires
            old(self).wf(),
            old(self).flags().len() < usize::MAX,
            parent matches Some(p) ==> p < old(self).flags().len(),
        ensures
            final(self).wf(),
            final(self).flags() == old(self).flags().push(flag),
            final(self).parents() == old(self).parents().push(parent),
            r.id() == old(self).flags().len(),
    {
        let id = self.cells.len();
        self.cells.push(DirtyCell { flag, parent });
        proof {
            assert(self.flags() =~= old(self).flags().push(flag));
            assert(self.parents() =~= old(self).parents().push(parent));
        }
        BackPropDirty { id }
    }
}

impl BackPropDirty {
    /// Position of the node in its forest.
    pub closed spec fn id(self) -> nat {
        self.id as nat
    }

    /// A root node with the given initial state.
    pub fn new(forest: &mut DirtyForest, init: bool) -> (r: Self)
        requires
            old(forest).wf(),
            old(forest).flags().len() < usize::MAX,
        ensures
            final(forest).wf(),
            final(forest).flags() == old(forest).flags().push(init),
            final(forest).parents() == old(forest).parents().push(None),
            r.id() == old(forest).flags().len(),
    {
        forest.add(init, None)
    }

    /// A clean node that reports to `parent`.
    pub fn with_parent(forest: &mut DirtyForest, parent: &BackPropDirty) -> (r: Self)
        requires
            old(forest).wf(),
            old(forest).flags().len() < usize::MAX,
            parent.id() < old(forest).flags().len(),
        ensures
            final(forest).wf(),
            final(forest).flags() == old(forest).flags().push(false),
            final(forest).parents() == old(forest).parents().push(Some(parent.id() as usize)),
            r.id() == old(forest).flags().len(),
    {
        forest.add(false, Some(parent.id))
    }

    /// A clean node that reports to this one.
    pub fn make_child(&self, forest: &mut DirtyForest) -> (r: Self)
        requires
            old(forest).wf(),
            old(forest).flags().len() < usize::MAX,
            self.id() < old(forest).flags().len(),
        ensures
            final(forest).wf(),
            final(forest).flags() == old(forest).flags().push(false),
            final(forest).parents() == old(forest).parents().push(Some(self.id() as usize)),
            r.id() == old(forest).flags().len(),
    {
        BackPropDirty::with_parent(forest, self)
    }

    /// Marks this node dirty and propagates to its ancestors, stopping at
    /// the first one that is already dirty.
    pub fn mark_dirty(&self, forest: &mut DirtyForest)
        requires
            old(forest).wf(),
            self.id() < old(forest).flags().len(),
        ensures
            final(forest).wf(),
            final(forest).parents() == old(forest).parents(),
            final(forest).flags() == mark_spec(
                old(forest).flags(),
                old(forest).parents(),
                self.id() as int,
            ),
    {
        let mut i = self.id;
        loop
            invariant
                forest.wf(),
                forest.parents() == old(forest).parents(),
                i < forest.flags().len(),
                mark_spec(forest.flags(), forest.parents(), i as int) == mark_spec(
                    old(forest).flags(),
                    old(forest).parents(),
                    self.id() as int,
                ),
            ensures
                forest.wf(),
                forest.parents() == old(forest).parents(),
                forest.flags() == mark_spec(
                    old(forest).flags(),
                    old(forest).parents(),
                    self.id() as int,
                ),
            decreases i,
        {
            let cell = forest.cells[i];
            proof {
                assert(forest.flags()[i as int] == cell.flag);
                assert(forest.parents()[i as int] == cell.parent);
            }
            if cell.flag {
                break;
            }
            let ghost before = forest.flags();
            forest.cells.set(i, DirtyCell { flag: true, parent: cell.parent });
            proof {
                assert(forest.flags() =~= before.update(i as int, true));
                assert(forest.parents() =~= old(forest).parents());
            }
            match cell.parent {
                Some(p) => {
                    i = p;
                },
                None => {
                    break;
                },
            }
        }
    }

    /// Whether this node is dirty.
    pub fn is_dirty(&self, forest: &DirtyForest) -> (r: bool)
        requires
            self.id() < forest.flags().len(),
        ensures
            r == forest.flags()[self.id() as int],
    {
        forest.cells[self.id].flag
    }

    /// Clears this node's flag and tells whether it was dirty.
    pub fn take_dirty(&self, forest: &mut DirtyForest) -> (r: bool)
        requires
            old(forest).wf(),
            self.id() < old(forest).flags().len(),
        ensures
            final(forest).wf(),
            r == old(forest).flags()[self.id() as int],
            final(forest).flags() == old(forest).flags().update(self.id() as int, false),
            final(forest).parents() == old(forest).parents(),
    {
        let cell = forest.cells[self.id];
        forest.cells.set(self.id, DirtyCell { flag: false, parent: cell.parent });
        proof {
            assert(forest.flags() =~= old(forest).flags().update(self.id() as int, false));
            assert(forest.parents() =~= old(forest).parents());
        }
        cell.flag
    }

    /// Clears this node's flag.
    pub fn clear_dirty(&self, forest: &mut DirtyForest)
        requires
            old(forest).wf(),
            self.id() < old(forest).flags().len(),
        ensures
            final(forest).wf(),
            final(forest).flags() == old(forest).flags().update(self.id() as int, false),
            final(forest).parents() == old(forest).parents(),
    {
        let _ = self.take_dirty(forest);
    }
}


// MARK: laws

/// Parent links point to earlier nodes.
pub open spec fn links_point_back(parents: Seq<Option<usize>>) -> bool {
    forall|i: int| 0 <= i < parents.len() ==> (#[trigger] parents[i] matches Some(p) ==> p < i)
}

/// Marking never clears a flag, keeps the number of nodes, and sets the
/// marked node.
pub proof fn law_mark_only_sets(flags: Seq<bool>, parents: Seq<Option<usize>>, i: int)
    requires
        flags.len() == parents.len(),
    ensures
        mark_spec(flags, parents, i).len() == flags.len(),
        forall|j: int| 0 <= j < flags.len() && flags[j] ==> #[trigger] mark_spec(flags, parents, i)[j],
        0 <= i < flags.len() ==> mark_spec(flags, parents, i)[i],
    decreases i,
{
    if 0 <= i < flags.len() && !flags[i] {
        let f2 = flags.update(i, true);
        if let Some(p) = parents[i] {
            if 0 <= p < i {
                law_mark_only_sets(f2, parents, p as int);
            }
        }
    }
}

/// Marking changes only the marked node and its ancestors.
pub proof fn law_mark_frame(flags: Seq<bool>, parents: Seq<Option<usize>>, i: int)
    requires
        flags.len() == parents.len(),
    ensures
        forall|j: int|
            0 <= j < flags.len() && #[trigger] mark_spec(flags, parents, i)[j] != flags[j] ==> (j
                == i || is_ancestor(parents, j, i)),
    decreases i,
{
    law_mark_only_sets(flags, parents, i);
    if 0 <= i < flags.len() && !flags[i] {
        let f2 = flags.update(i, true);
        if let Some(p) = parents[i] {
            if 0 <= p < i {
                law_mark_frame(f2, parents, p as int);
                assert forall|j: int|
                    0 <= j < flags.len() && #[trigger] mark_spec(flags, parents, i)[j]
                        != flags[j] implies (j == i || is_ancestor(parents, j, i)) by {
                    if j != i {
                        assert(mark_spec(f2, parents, p as int)[j] != f2[j]);
                    }
                }
            }
        }
    }
}

proof fn lemma_ancestor_smaller(parents: Seq<Option<usize>>, a: int, j: int)
    requires
        is_ancestor(parents, a, j),
    ensures
        0 <= a < j,
    decreases j,
{
    let p = parents[j]->0 as int;
    if p != a {
        lemma_ancestor_smaller(parents, a, p);
    }
}

proof fn lemma_mark_closes(
    orig: Seq<bool>,
    flags: Seq<bool>,
    parents: Seq<Option<usize>>,
    c: int,
)
    requires
        flags.len() == parents.len(),
        orig.len() == parents.len(),
        links_point_back(parents),
        0 <= c < flags.len(),
        closed_upward(orig, parents),
        forall|j: int, a: int|
            0 <= j < flags.len() && #[trigger] flags[j] && #[trigger] is_ancestor(parents, a, j)
                ==> (flags[a] || a == c || is_ancestor(parents, a, c)),
        forall|a: int| (a == c || is_ancestor(parents, a, c)) ==> #[trigger] flags[a] == orig[a],
    ensures
        closed_upward(mark_spec(flags, parents, c), parents),
        forall|a: int| #[trigger] is_ancestor(parents, a, c) ==> mark_spec(flags, parents, c)[a],
    decreases c,
{
    law_mark_only_sets(flags, parents, c);
    if flags[c] {
        assert(orig[c]);
        assert forall|a: int| #[trigger] is_ancestor(parents, a, c) implies flags[a] by {
            assert(orig[a]);
        }
    } else {
        let f2 = flags.update(c, true);
        match parents[c] {
            Some(q) => {
                assert(q < c);
                let q = q as int;
                assert(forall|a: int| #[trigger] is_ancestor(parents, a, c) <==> (a == q
                    || is_ancestor(parents, a, q)));
                assert forall|j: int, a: int|
                    0 <= j < f2.len() && #[trigger] f2[j] && #[trigger] is_ancestor(
                        parents,
                        a,
                        j,
                    ) implies (f2[a] || a == q || is_ancestor(parents, a, q)) by {
                    lemma_ancestor_smaller(parents, a, j);
                    if j != c {
                        assert(flags[j]);
                        assert(flags[a] || a == c || is_ancestor(parents, a, c));
                        if flags[a] {
                            assert(f2[a]);
                        } else if a == c {
                            assert(f2[a]);
                        } else {
                            assert(is_ancestor(parents, a, c));
                            assert(a == q || is_ancestor(parents, a, q));
                        }
                    } else {
                        assert(is_ancestor(parents, a, c));
                        assert(a == q || is_ancestor(parents, a, q));
                    }
                }
                assert forall|a: int| (a == q || is_ancestor(parents, a, q)) implies #[trigger] f2[a]
                    == orig[a] by {
                    if a != q {
                        lemma_ancestor_smaller(parents, a, q);
                    }
                    assert(is_ancestor(parents, a, c));
                    assert(a != c);
                }
                lemma_mark_closes(orig, f2, parents, q);
                law_mark_only_sets(f2, parents, q);
            },
            None => {
                assert(forall|a: int| !is_ancestor(parents, a, c));
                assert forall|j: int, a: int|
                    0 <= j < f2.len() && #[trigger] f2[j] && #[trigger] is_ancestor(
                        parents,
                        a,
                        j,
                    ) implies f2[a] by {
                    lemma_ancestor_smaller(parents, a, j);
                    if j != c {
                        assert(flags[j]);
                        if !flags[a] && a != c {
                            assert(is_ancestor(parents, a, c));
                        }
                    } else {
                        assert(is_ancestor(parents, a, c));
                    }
                }
            },
        }
    }
}

/// When every dirty node's ancestors are dirty, marking a node leaves all
/// its ancestors dirty, and every dirty node's ancestors are still dirty.
pub proof fn law_mark_reaches_ancestors(flags: Seq<bool>, parents: Seq<Option<usize>>, i: int)
    requires
        flags.len() == parents.len(),
        links_point_back(parents),
        0 <= i < flags.len(),
        closed_upward(flags, parents),
    ensures
        mark_spec(flags, parents, i)[i],
        forall|a: int| #[trigger] is_ancestor(parents, a, i) ==> mark_spec(flags, parents, i)[a],
        closed_upward(mark_spec(flags, parents, i), parents),
{
    law_mark_only_sets(flags, parents, i);
    lemma_mark_closes(flags, flags, parents, i);
}


/// Node `j` lies on the walk from `i` towards the root before the first
/// node that is already dirty: every node from `i` up to `j` is clean.
pub open spec fn reached(flags: Seq<bool>, parents: Seq<Option<usize>>, i: int, j: int) -> bool
    decreases i,
{
    if !(0 <= i < flags.len()) || flags[i] {
        false
    } else if j == i {
        true
    } else {
        match parents[i] {
            Some(p) => if 0 <= p < i {
                reached(flags, parents, p as int, j)
            } else {
                false
            },
            None => false,
        }
    }
}

/// The walk from `i` depends only on the flags at `i` and below.
proof fn lemma_reached_frame(f: Seq<bool>, g: Seq<bool>, parents: Seq<Option<usize>>, i: int, j: int)
    requires
        f.len() == g.len(),
        forall|k: int| 0 <= k <= i && k < f.len() ==> f[k] == g[k],
    ensures
        reached(f, parents, i, j) == reached(g, parents, i, j),
    decreases i,
{
    if 0 <= i < f.len() && !f[i] && j != i {
        if let Some(p) = parents[i] {
            if 0 <= p < i {
                lemma_reached_frame(f, g, parents, p as int, j);
            }
        }
    }
}

/// Marking node `i` sets exactly the nodes on its walk towards the root up
/// to, not including, the first node that was already dirty; every other
/// flag keeps its value.
pub proof fn law_mark_stops_at_first_dirty(flags: Seq<bool>, parents: Seq<Option<usize>>, i: int)
    requires
        flags.len() == parents.len(),
    ensures
        mark_spec(flags, parents, i).len() == flags.len(),
        forall|j: int|
            0 <= j < flags.len() ==> #[trigger] mark_spec(flags, parents, i)[j] == (flags[j]
                || reached(flags, parents, i, j)),
    decreases i,
{
    law_mark_only_sets(flags, parents, i);
    if 0 <= i < flags.len() && !flags[i] {
        let f2 = flags.update(i, true);
        if let Some(p) = parents[i] {
            if 0 <= p < i {
                law_mark_stops_at_first_dirty(f2, parents, p as int);
                assert forall|j: int| 0 <= j < flags.len() implies #[trigger] mark_spec(flags, parents, i)[j]
                    == (flags[j] || reached(flags, parents, i, j)) by {
                    lemma_reached_frame(f2, flags, parents, p as int, j);
                    if j != i {
                        assert(reached(flags, parents, i, j) == reached(flags, parents, p as int, j));
                    }
                }
            }
        }
    }
}

} // verus!
