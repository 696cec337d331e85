use vstd::prelude::*;
use std::collections::VecDeque;
use crate::keys::GlyphKey;

verus! {

/// Where a glyph's bitmap sits in the grid atlas: its cell, the cell's
/// pixel offset, and the bitmap's width and height.
#[derive(Debug, Clone, Copy, PartialEq, Eq)]
pub struct GlyphSlot {
    pub index: [u32; 2],
    pub data_offset: [u32; 2],
    pub data_size: [usize; 2],
}

/// The cell that the `k`-th glyph stored into an atlas that is not yet full
/// takes, `index_width` cells to a row.
pub open spec fn cell_of(k: int, index_width: int) -> (int, int) {
    (k % index_width, k / index_width)
}

/// A grid of `index_width` by `index_height` square cells of `panel_size`
/// pixels, each holding one glyph. Cells are handed out row by row; once
/// all are taken, a new glyph takes the cell of the glyph stored longest
/// ago, which is evicted.
pub struct CacheAtlas<const N: u32> {
    panel_size: u32,
    index_width: u32,
    index_height: u32,
    // oldest first
    slots: VecDeque<(GlyphKey<N>, GlyphSlot)>,
}

proof fn lemma_cell_in_grid(k: int, w: int, h: int)
    requires
        0 <= k < w * h,
        w > 0,
        h > 0,
    ensures
        0 <= cell_of(k, w).0 < w,
        0 <= cell_of(k, w).1 < h,
{
    vstd::arithmetic::div_mod::lemma_fundamental_div_mod(k, w);
    let q = k / w;
    let r = k % w;
    assert(0 <= r < w);
    assert(q < h) by (nonlinear_arith)
        requires
            k == w * q + r,
            0 <= r,
            k < w * h,
            w > 0,
    ;
    assert(q >= 0) by (nonlinear_arith)
        requires
            k == w * q + r,
            r < w,
            k >= 0,
            w > 0,
    ;
}

proof fn lemma_cells_distinct(a: int, b: int, w: int)
    requires
        0 <= a,
        0 <= b,
        w > 0,
        cell_of(a, w) == cell_of(b, w),
    ensures
        a == b,
{
    vstd::arithmetic::div_mod::lemma_fundamental_div_mod(a, w);
    vstd::arithmetic::div_mod::lemma_fundamental_div_mod(b, w);
}

impl<const N: u32> CacheAtlas<N> {
    /// The glyphs held and their cells, the one stored longest ago first.
    pub closed spec fn entries(self) -> Seq<(GlyphKey<N>, GlyphSlot)> {
        self.slots@
    }

    pub closed spec fn spec_panel_size(self) -> u32 {
        self.panel_size
    }

    pub closed spec fn spec_index_width(self) -> u32 {
        self.index_width
    }

    pub closed spec fn spec_index_height(self) -> u32 {
        self.index_height
    }

    /// Number of cells.
    pub open spec fn cells(self) -> int {
        self.spec_index_width() * self.spec_index_height()
    }

    pub open spec fn holds(self, key: GlyphKey<N>) -> bool {
        exists|i: int| 0 <= i < self.entries().len() && (#[trigger] self.entries()[i]).0 == key
    }

    /// Each glyph is held once and in a cell of its own inside the grid,
    /// whose offset is the cell times the panel size; until the grid is
    /// full, the `k`-th glyph held sits in cell `k`.
    pub open spec fn wf(self) -> bool {
        let e = self.entries();
        &&& self.cells() <= u32::MAX
        &&& self.spec_panel_size() * self.spec_index_width() <= u32::MAX
        &&& self.spec_panel_size() * self.spec_index_height() <= u32::MAX
        &&& e.len() <= self.cells()
        &&& forall|i: int|
            0 <= i < e.len() ==> {
                let s = (#[trigger] e[i]).1;
                &&& s.index[0] < self.spec_index_width()
                &&& s.index[1] < self.spec_index_height()
                &&& s.data_offset[0] == s.index[0] * self.spec_panel_size()
                &&& s.data_offset[1] == s.index[1] * self.spec_panel_size()
                &&& e.len() < self.cells() ==> (s.index[0] as int, s.index[1] as int) == cell_of(
                    i,
                    self.spec_index_width() as int,
                )
            }
        &&& forall|i: int, j: int|
            0 <= i < j < e.len() ==> {
                &&& (#[trigger] e[i]).0 != (#[trigger] e[j]).0
                &&& e[i].1.index != e[j].1.index
            }
    }

    /// An empty atlas.
    pub fn new(panel_size: u32, index_width: u32, index_height: u32) -> (r: Self)
        requires
            index_width * index_height <= u32::MAX,
            panel_size * index_width <= u32::MAX,
            panel_size * index_height <= u32::MAX,
        ensures
            r.wf(),
            r.entries() == Seq::<(GlyphKey<N>, GlyphSlot)>::empty(),
            r.spec_panel_size() == panel_size,
            r.spec_index_width() == index_width,
            r.spec_index_height() == index_height,
    {
        CacheAtlas { panel_size, index_width, index_height, slots: VecDeque::new() }
    }

    pub fn get_panel_size(&self) -> (r: u32)
        ensures
            r == self.spec_panel_size(),
    {
        self.panel_size
    }

    pub fn get_index_size(&self) -> (r: (u32, u32))
        ensures
            r == (self.spec_index_width(), self.spec_index_height()),
    {
        (self.index_width, self.index_height)
    }

    /// Every cell is taken.
    pub fn is_full(&self) -> (r: bool)
        requires
            self.wf(),
        ensures
            r == (self.entries().len() >= self.cells()),
    {
        (self.slots.len() as u32) >= self.index_width * self.index_height
    }

    /// The cell of `key`, if it is held.
    pub fn get(&self, key: GlyphKey<N>) -> (r: Option<GlyphSlot>)
        requires
            self.wf(),
        ensures
            r is Some <==> self.holds(key),
            r matches Some(s) ==> exists|i: int|
                0 <= i < self.entries().len() && self.entries()[i] == (key, s),
    {
        let mut i: usize = 0;
        while i < self.slots.len()
            invariant
                i <= self.slots@.len(),
                forall|j: int| 0 <= j < i ==> (#[trigger] self.slots@[j]).0 != key,
            decreases self.slots@.len() - i,
        {
            if self.slots[i].0.same_key(&key) {
                proof {
                    assert(self.entries()[i as int] == (key, self.slots@[i as int].1));
                }
                return Some(self.slots[i].1);
            }
            i = i + 1;
        }
        proof {
            assert forall|j: int| 0 <= j < self.entries().len() implies (
            #[trigger] self.entries()[j]).0 != key by {
                assert(self.entries()[j] == self.slots@[j]);
            }
        }
        None
    }

    /// Stores `key`, whose bitmap is `data_size` pixels, in the next free
    /// cell, or, when all are taken, in the cell of the glyph stored longest
    /// ago, which is evicted. Returns the cell.
    pub fn store(&mut self, key: GlyphKey<N>, data_size: [usize; 2]) -> (r: GlyphSlot)
        requires
            old(self).wf(),
            0 < old(self).spec_index_width(),
            0 < old(self).spec_index_height(),
            !old(self).holds(key),
        ensures
            final(self).wf(),
            final(self).spec_panel_size() == old(self).spec_panel_size(),
            final(self).spec_index_width() == old(self).spec_index_width(),
            final(self).spec_index_height() == old(self).spec_index_height(),
            r.data_size == data_size,
            old(self).entries().len() < old(self).cells() ==> {
                &&& final(self).entries() == old(self).entries().push((key, r))
                &&& (r.index[0] as int, r.index[1] as int) == cell_of(
                    old(self).entries().len() as int,
                    old(self).spec_index_width() as int,
                )
            },
            old(self).entries().len() >= old(self).cells() ==> {
                &&& final(self).entries() == old(self).entries().drop_first().push((key, r))
                &&& r.index == old(self).entries()[0].1.index
                &&& r.data_offset == old(self).entries()[0].1.data_offset
            },
    {
        let ghost e = self.slots@;
        let w = self.index_width;
        let len = self.slots.len();
        proof {
            assert(w * self.index_height >= 1) by (nonlinear_arith)
                requires
                    w > 0,
                    self.index_height > 0,
            ;
            assert(len <= w * self.index_height);
        }
        if (len as u32) < w * self.index_height {
            let k = len as u32;
            proof {
                lemma_cell_in_grid(k as int, w as int, self.index_height as int);
                vstd::arithmetic::div_mod::lemma_fundamental_div_mod(k as int, w as int);
            }
            let index = [k % w, k / w];
            proof {
                assert(index[0] * self.panel_size <= self.panel_size * w) by (nonlinear_arith)
                    requires
                        index[0] < w,
                ;
                assert(index[1] * self.panel_size <= self.panel_size * self.index_height) by (
                nonlinear_arith)
                    requires
                        index[1] < self.index_height,
                ;
            }
            let data_offset = [index[0] * self.panel_size, index[1] * self.panel_size];
            let slot = GlyphSlot { index, data_offset, data_size };
            self.slots.push_back((key, slot));
            proof {
                assert forall|i: int, j: int| 0 <= i < j < self.slots@.len() implies {
                    &&& (#[trigger] self.slots@[i]).0 != (#[trigger] self.slots@[j]).0
                    &&& self.slots@[i].1.index != self.slots@[j].1.index
                } by {
                    if j == len {
                        assert(self.slots@[i] == e[i]);
                        assert(!(e[i].0 == key));
                        if self.slots@[i].1.index == index {
                            lemma_cells_distinct(i, k as int, w as int);
                        }
                    } else {
                        assert(self.slots@[i] == e[i]);
                        assert(self.slots@[j] == e[j]);
                    }
                }
            }
            slot
        } else {
            assert(e.len() >= 1);
            let oldest = self.slots.pop_front();
            let (_, old_slot) = match oldest {
                Some(o) => o,
                None => unreached(),
            };
            let slot = GlyphSlot {
                index: old_slot.index,
                data_offset: old_slot.data_offset,
                data_size,
            };
            self.slots.push_back((key, slot));
            proof {
                assert(self.slots@ =~= e.drop_first().push((key, slot)));
                assert forall|i: int, j: int| 0 <= i < j < self.slots@.len() implies {
                    &&& (#[trigger] self.slots@[i]).0 != (#[trigger] self.slots@[j]).0
                    &&& self.slots@[i].1.index != self.slots@[j].1.index
                } by {
                    assert(self.slots@[i] == e[i + 1]);
                    if j == self.slots@.len() - 1 {
                        assert(!(e[i + 1].0 == key));
                        assert(e[0].1.index != e[i + 1].1.index);
                    } else {
                        assert(self.slots@[j] == e[j + 1]);
                    }
                }
                assert forall|i: int| 0 <= i < self.slots@.len() implies {
                    let s = (#[trigger] self.slots@[i]).1;
                    &&& s.index[0] < self.index_width
                    &&& s.index[1] < self.index_height
                    &&& s.data_offset[0] == s.index[0] * self.panel_size
                    &&& s.data_offset[1] == s.index[1] * self.panel_size
                } by {
                    if i < self.slots@.len() - 1 {
                        assert(self.slots@[i] == e[i + 1]);
                    } else {
                        assert(self.slots@[i].1 == slot);
                        assert(slot.index == e[0].1.index);
                    }
                }
            }
            slot
        }
    }
}

/// No two glyphs held share a cell, and every cell is inside the grid.
pub proof fn law_glyphs_have_own_cells<const N: u32>(a: CacheAtlas<N>)
    requires
        a.wf(),
    ensures
        forall|i: int, j: int|
            0 <= i < j < a.entries().len() ==> (#[trigger] a.entries()[i]).1.index != (
            #[trigger] a.entries()[j]).1.index,
        forall|i: int|
            0 <= i < a.entries().len() ==> (#[trigger] a.entries()[i]).1.index[0]
                < a.spec_index_width() && a.entries()[i].1.index[1] < a.spec_index_height(),
        a.entries().len() <= a.cells(),
{
}

} // verus!
