use vstd::prelude::*;
use vstd::std_specs::cmp::PartialEqSpec;
use crate::texture_atlas::{
    AtlasState, TextureAtlasError, TextureEntry, TextureId, TextureLocation, holds_resized,
    moved_from, refuses, resize_has_room,
};

verus! {

/// Why the atlas manager refused a request.
#[derive(Debug, Clone, Copy, PartialEq, Eq, Structural)]
pub enum AtlasManagerError {
    /// Format set cannot be empty.
    EmptyFormatSet,
    /// Format set already exists in the manager.
    FormatSetAlreadyExists,
    /// Requested texture size is invalid (width or height is zero, or exceeds max texture dimension).
    InvalidTextureSize,
    /// The specified format set was not found in the manager.
    FormatSetNotFound,
    /// Failed to allocate texture, even after attempting to resize the atlas.
    AllocationFailed,
    /// An error occurred in the texture atlas.
    AtlasError(TextureAtlasError),
}

/// A texture placed by the manager. When the atlas had to grow first,
/// `moves` holds, for each texture it kept, its old and new location, in
/// the order they were placed.
pub struct ManagerAllocation {
    pub entry: TextureEntry,
    pub moves: Option<Vec<(TextureLocation, TextureLocation)>>,
}

/// The index of the first format set of `sets`, from `from` on, that equals
/// `formats`.
pub open spec fn set_index(sets: Seq<Vec<u32>>, formats: Vec<u32>, from: int) -> Option<
    int,
>
    decreases sets.len() - from,
{
    if from < 0 || from >= sets.len() {
        None
    } else if sets[from].eq_spec(&formats) {
        Some(from)
    } else {
        set_index(sets, formats, from + 1)
    }
}

/// The first index of `sets` whose format set equals `formats`.
pub open spec fn find_set(sets: Seq<Vec<u32>>, formats: Vec<u32>) -> Option<int> {
    set_index(sets, formats, 0)
}

proof fn lemma_set_index_bounds(sets: Seq<Vec<u32>>, formats: Vec<u32>, from: int)
    ensures
        set_index(sets, formats, from) matches Some(i) ==> {
            &&& from <= i < sets.len()
            &&& 0 <= i
            &&& sets[i].eq_spec(&formats)
        },
        set_index(sets, formats, from) is None && 0 <= from ==> forall|j: int|
            from <= j < sets.len() ==> !(#[trigger] sets[j]).eq_spec(&formats),
    decreases sets.len() - from,
{
    if from >= 0 && from < sets.len() && !sets[from].eq_spec(&formats) {
        lemma_set_index_bounds(sets, formats, from + 1);
    }
}

proof fn lemma_set_index_push(sets: Seq<Vec<u32>>, formats: Vec<u32>, extra: Vec<u32>, from: int)
    requires
        0 <= from <= sets.len(),
        set_index(sets, formats, from) is Some,
    ensures
        set_index(sets.push(extra), formats, from) == set_index(sets, formats, from),
    decreases sets.len() - from,
{
    if from < sets.len() && !sets[from].eq_spec(&formats) {
        lemma_set_index_push(sets, formats, extra, from + 1);
    }
}

proof fn lemma_set_index_push_new(sets: Seq<Vec<u32>>, formats: Vec<u32>, from: int)
    requires
        0 <= from <= sets.len(),
        set_index(sets, formats, from) is None,
        formats.eq_spec(&formats),
    ensures
        set_index(sets.push(formats), formats, from) == Some(sets.len() as int),
    decreases sets.len() - from,
{
    if from < sets.len() {
        assert(sets.push(formats)[from] == sets[from]);
        lemma_set_index_push_new(sets, formats, from + 1);
    } else {
        assert(sets.push(formats)[from] == formats);
    }
}

/// After a format set is added, looking it up finds the new atlas at the
/// end, and every format set that was found before is found at the same
/// index.
pub proof fn law_added_format_set_is_found(
    sets: Seq<Vec<u32>>,
    formats: Vec<u32>,
    other: Vec<u32>,
)
    requires
        find_set(sets, formats) is None,
    ensures
        find_set(sets.push(formats), formats) == Some(sets.len() as int),
        find_set(sets, other) is Some ==> find_set(sets.push(formats), other) == find_set(sets, other),
{
    assert(formats.eq_spec(&formats));
    lemma_set_index_push_new(sets, formats, 0);
    if find_set(sets, other) is Some {
        lemma_set_index_push(sets, other, formats, 0);
    }
}

/// Two atlases hold the same textures in the same place: same page size
/// and count, same records, usage and next serial number.
pub open spec fn same_records(a: AtlasState, b: AtlasState) -> bool {
    &&& a.spec_width() == b.spec_width()
    &&& a.spec_height() == b.spec_height()
    &&& a.pages() == b.pages()
    &&& a.entries() == b.entries()
    &&& a.spec_usage() == b.spec_usage()
    &&& a.serial() == b.serial()
}

/// The atlases of an application, one per set of texture formats (each
/// format named by a number), all with
/// pages of the largest texture size the device allows. A new atlas starts
/// with `initial_pages` pages and grows, up to `max_pages`, when a texture
/// does not fit or when the caller's memory strategy asks for it.
pub struct AtlasManager {
    max_width: u32,
    max_height: u32,
    max_pages: u32,
    initial_pages: u32,
    format_sets: Vec<Vec<u32>>,
    atlases: Vec<AtlasState>,
}

impl AtlasManager {
    pub closed spec fn spec_max_width(self) -> u32 {
        self.max_width
    }

    pub closed spec fn spec_max_height(self) -> u32 {
        self.max_height
    }

    pub closed spec fn spec_max_pages(self) -> u32 {
        self.max_pages
    }

    pub closed spec fn spec_initial_pages(self) -> u32 {
        self.initial_pages
    }

    /// The format sets, in the order they were added.
    pub closed spec fn format_sets(self) -> Seq<Vec<u32>> {
        self.format_sets@
    }

    /// The atlas of each format set, at the same index.
    pub closed spec fn atlases(self) -> Seq<AtlasState> {
        self.atlases@
    }

    /// The limits fit the atlases' arithmetic, there is one atlas per
    /// format set, and every atlas is well formed with pages of the
    /// largest size.
    pub closed spec fn wf(self) -> bool {
        &&& 0 < self.max_width <= i32::MAX
        &&& 0 < self.max_height <= i32::MAX
        &&& self.max_width * self.max_height * self.max_pages <= usize::MAX
        &&& self.max_width * self.max_height * self.initial_pages <= usize::MAX
        &&& self.format_sets@.len() == self.atlases@.len()
        &&& forall|i: int|
            0 <= i < self.atlases@.len() ==> {
                let a = #[trigger] self.atlases@[i];
                &&& a.wf()
                &&& a.spec_width() == self.max_width
                &&& a.spec_height() == self.max_height
            }
    }

    /// No atlas has used up its texture serial numbers.
    pub closed spec fn ids_left(self) -> bool {
        forall|i: int| 0 <= i < self.atlases@.len() ==> (#[trigger] self.atlases@[i]).serial() < u64::MAX
    }

    /// The texture sizes that `allocate` accepts.
    pub open spec fn size_fits(self, size: [u32; 2]) -> bool {
        &&& size[0] != 0
        &&& size[1] != 0
        &&& size[0] <= self.spec_max_width()
        &&& size[1] <= self.spec_max_height()
    }

    /// The page count an atlas grows to: the strategy's scaled count, capped
    /// at the largest page count.
    pub open spec fn grown_pages(self, scaled_pages: u32) -> u32 {
        if scaled_pages < self.spec_max_pages() {
            scaled_pages
        } else {
            self.spec_max_pages()
        }
    }

    /// A manager with no format sets, for pages of at most `max_width` by
    /// `max_height` pixels and at most `max_pages` pages per atlas.
    pub fn new(max_width: u32, max_height: u32, max_pages: u32, initial_pages: u32) -> (r: Self)
        requires
            0 < max_width <= i32::MAX,
            0 < max_height <= i32::MAX,
            max_width * max_height * max_pages <= usize::MAX,
            max_width * max_height * initial_pages <= usize::MAX,
        ensures
            r.wf(),
            r.ids_left(),
            r.spec_max_width() == max_width,
            r.spec_max_height() == max_height,
            r.spec_max_pages() == max_pages,
            r.spec_initial_pages() == initial_pages,
            r.format_sets() == Seq::<Vec<u32>>::empty(),
    {
        AtlasManager {
            max_width,
            max_height,
            max_pages,
            initial_pages,
            format_sets: Vec::new(),
            atlases: Vec::new(),
        }
    }

    /// Whether every atlas can still name new textures.
    pub fn has_ids_left(&self) -> (r: bool)
        ensures
            r == self.ids_left(),
    {
        let mut i: usize = 0;
        while i < self.atlases.len()
            invariant
                i <= self.atlases@.len(),
                forall|j: int| 0 <= j < i ==> (#[trigger] self.atlases@[j]).serial() < u64::MAX,
            decreases self.atlases@.len() - i,
        {
            if !self.atlases[i].has_ids_left() {
                return false;
            }
            i = i + 1;
        }
        true
    }

    /// Number of format sets, and so of atlases.
    pub fn atlas_count(&self) -> (r: usize)
        requires
            self.wf(),
        ensures
            r == self.atlases().len(),
    {
        self.atlases.len()
    }

    fn find(&self, formats: &Vec<u32>) -> (r: Option<usize>)
        requires
            self.wf(),
        ensures
            r is Some <==> find_set(self.format_sets(), *formats) is Some,
            r matches Some(i) ==> i < self.atlases().len() && find_set(self.format_sets(), *formats)
                == Some(i as int),
    {
        let mut i: usize = 0;
        while i < self.format_sets.len()
            invariant
                self.wf(),
                    i <= self.format_sets@.len(),
                find_set(self.format_sets@, *formats) == set_index(self.format_sets@, *formats, i as int),
            decreases self.format_sets@.len() - i,
        {
            if self.format_sets[i] == *formats {
                return Some(i);
            }
            i = i + 1;
        }
        proof {
            lemma_set_index_bounds(self.format_sets@, *formats, i as int);
        }
        None
    }

    /// The atlas for the format set `formats`, if there is one.
    pub fn atlas(&self, formats: &Vec<u32>) -> (r: Option<&AtlasState>)
        requires
            self.wf(),
        ensures
            r is Some <==> find_set(self.format_sets(), *formats) is Some,
            r matches Some(a) ==> *a == self.atlases()[find_set(self.format_sets(), *formats)->0],
    {
        match self.find(formats) {
            Some(i) => Some(&self.atlases[i]),
            None => None,
        }
    }

    /// Adds an empty atlas for the format set `formats`, with the initial
    /// number of pages.
    pub fn add_format_set(&mut self, formats: Vec<u32>) -> (r: Result<(), AtlasManagerError>)
        requires
            old(self).wf(),
        ensures
            final(self).wf(),
            final(self).spec_max_width() == old(self).spec_max_width(),
            final(self).spec_max_height() == old(self).spec_max_height(),
            final(self).spec_max_pages() == old(self).spec_max_pages(),
            final(self).spec_initial_pages() == old(self).spec_initial_pages(),
            formats.len() == 0 ==> r == Err::<(), AtlasManagerError>(
                AtlasManagerError::EmptyFormatSet,
            ),
            formats.len() != 0 && find_set(old(self).format_sets(), formats) is Some ==> r == Err::<
                (),
                AtlasManagerError,
            >(AtlasManagerError::FormatSetAlreadyExists),
            formats.len() != 0 && find_set(old(self).format_sets(), formats) is None ==> r is Ok,
            r is Err ==> *final(self) == *old(self),
            r is Ok ==> {
                let a = final(self).atlases().last();
                &&& final(self).format_sets() == old(self).format_sets().push(formats)
                &&& final(self).atlases().drop_last() == old(self).atlases()
                &&& a.pages() == old(self).spec_initial_pages()
                &&& a.entries() == Seq::<TextureEntry>::empty()
                &&& a.spec_usage() == 0
                &&& a.serial() == 0
            },
    {
        if formats.len() == 0 {
            return Err(AtlasManagerError::EmptyFormatSet);
        }
        if self.find(&formats).is_some() {
            return Err(AtlasManagerError::FormatSetAlreadyExists);
        }
        let atlas = AtlasState::new(self.max_width, self.max_height, self.initial_pages);
        self.format_sets.push(formats);
        self.atlases.push(atlas);
        proof {
            assert(self.atlases@.drop_last() =~= old(self).atlases@);
            assert forall|i: int| 0 <= i < self.atlases@.len() implies {
                let a = #[trigger] self.atlases@[i];
                &&& a.wf()
                &&& a.spec_width() == self.max_width
                &&& a.spec_height() == self.max_height
            } by {
                if i < old(self).atlases@.len() {
                    assert(self.atlases@[i] == old(self).atlases@[i]);
                }
            }
        }
        Ok(())
    }

    /// Places a texture of `size` pixels in the atlas of `formats`.
    ///
    /// The memory strategy's floating-point part is the caller's:
    /// `over_threshold` tells whether the atlas's usage with this texture
    /// passes the strategy's resize threshold, and `scaled_pages` is the
    /// page count the strategy would grow the atlas to. The atlas grows
    /// first when it is over the threshold and below the largest page
    /// count; otherwise the texture is placed as the atlas stands, and the
    /// atlas grows only when that fails and it is below the largest page
    /// count. Growing keeps every texture.
    pub fn allocate(
        &mut self,
        size: [u32; 2],
        formats: &Vec<u32>,
        over_threshold: bool,
        scaled_pages: u32,
    ) -> (r: Result<ManagerAllocation, AtlasManagerError>)
        requires
            old(self).wf(),
            old(self).ids_left(),
        ensures
            final(self).wf(),
            final(self).spec_max_width() == old(self).spec_max_width(),
            final(self).spec_max_height() == old(self).spec_max_height(),
            final(self).spec_max_pages() == old(self).spec_max_pages(),
            final(self).spec_initial_pages() == old(self).spec_initial_pages(),
            final(self).format_sets() == old(self).format_sets(),
            !old(self).size_fits(size) ==> (r matches Err(e) && e
                == AtlasManagerError::InvalidTextureSize),
            old(self).size_fits(size) && find_set(old(self).format_sets(), *formats) is None ==> (r matches Err(
                e,
            ) && e == AtlasManagerError::FormatSetNotFound),
            !old(self).size_fits(size) || find_set(old(self).format_sets(), *formats) is None
                ==> *final(self) == *old(self),
            old(self).size_fits(size) ==> (find_set(old(self).format_sets(), *formats) matches Some(i)
                ==> old(self).allocation_outcome(i, size, over_threshold, scaled_pages, *final(self), r)),
    {
        if size[0] == 0 || size[1] == 0 {
            return Err(AtlasManagerError::InvalidTextureSize);
        }
        if size[0] > self.max_width || size[1] > self.max_height {
            return Err(AtlasManagerError::InvalidTextureSize);
        }
        let i = match self.find(formats) {
            Some(i) => i,
            None => {
                return Err(AtlasManagerError::FormatSetNotFound);
            },
        };
        assert(find_set(old(self).format_sets(), *formats) == Some(i as int));
        let ghost before = self.atlases@[i as int];
        let pages = self.atlases[i].page_count();
        let below_max = pages < self.max_pages as usize;
        let proactive = over_threshold && below_max;
        if !proactive {
            let placed = AtlasState::allocate(&mut self.atlases[i], size);
            proof {
                self.lemma_replaced_keeps_wf(*old(self), i as int);
            }
            match placed {
                Ok(entry) => {
                    return Ok(ManagerAllocation { entry, moves: None });
                },
                Err(_) => {
                    if !below_max {
                        return Err(
                            AtlasManagerError::AtlasError(
                                TextureAtlasError::AllocationFailedNotEnoughSpace,
                            ),
                        );
                    }
                },
            }
        }
        assert(same_records(before, self.atlases@[i as int]));
        assert(!proactive ==> forall|q: int|
            0 <= q < before.pages() ==> !#[trigger] before.can_place(q, size[0] as int, size[1] as int));
        let grown = if scaled_pages < self.max_pages {
            scaled_pages
        } else {
            self.max_pages
        };
        proof {
            assert(self.max_width * self.max_height * grown <= self.max_width * self.max_height
                * self.max_pages) by (nonlinear_arith)
                requires
                    grown <= self.max_pages,
            ;
        }
        let ghost mid = self.atlases@[i as int];
        let resized = AtlasState::resize(
            &mut self.atlases[i],
            self.max_width,
            self.max_height,
            grown,
            false,
            Some(size),
        );
        proof {
            self.lemma_replaced_keeps_wf(*old(self), i as int);
        }
        match resized {
            Ok((added, moves)) => {
                match added {
                    Some(entry) => {
                        proof {
                            let kept = self.atlases@[i as int].entries().drop_last();
                            assert(mid.entries() == before.entries());
                            assert(before == old(self).atlases()[i as int]);
                            assert(!proactive ==> forall|q: int|
                                0 <= q < before.pages() ==> !#[trigger] before.can_place(
                                    q,
                                    size[0] as int,
                                    size[1] as int,
                                ));
                            assert forall|k: int| 0 <= k < kept.len() implies (#[trigger] kept[k]).id
                                == before.entries()[k].id by {
                                assert(kept[k] == self.atlases@[i as int].entries()[k]);
                            }
                        }
                        Ok(ManagerAllocation { entry, moves: Some(moves) })
                    },
                    None => unreached(),
                }
            },
            Err(e) => {
                proof {
                    assert(mid.entries() == before.entries());
                    assert(before == old(self).atlases()[i as int]);
                    assert(grown == old(self).grown_pages(scaled_pages));
                    let (m, k) = choose|m: AtlasState, k: int|
                        0 <= k <= mid.entries().len() && #[trigger] holds_resized(
                            m,
                            mid.entries().take(k),
                            old(self).spec_max_width(),
                            old(self).spec_max_height(),
                            grown as nat,
                        ) && ({
                            ||| k < mid.entries().len() && refuses(
                                m,
                                mid.entries()[k].location.max_x - mid.entries()[k].location.min_x,
                                mid.entries()[k].location.max_y - mid.entries()[k].location.min_y,
                            )
                            ||| k == mid.entries().len() && refuses(m, size[0] as int, size[1] as int)
                        });
                    assert(holds_resized(
                        m,
                        before.entries().take(k),
                        old(self).spec_max_width(),
                        old(self).spec_max_height(),
                        old(self).grown_pages(scaled_pages) as nat,
                    ));
                }
                Err(AtlasManagerError::AtlasError(e))
            },
        }
    }

    /// Replacing one atlas by another well-formed one of the same page size
    /// keeps the manager well formed.
    proof fn lemma_replaced_keeps_wf(self, pre: Self, i: int)
        requires
            pre.wf(),
            0 <= i < pre.atlases@.len(),
            self.max_width == pre.max_width,
            self.max_height == pre.max_height,
            self.max_pages == pre.max_pages,
            self.initial_pages == pre.initial_pages,
            self.format_sets == pre.format_sets,
            self.atlases@.len() == pre.atlases@.len(),
            forall|j: int| 0 <= j < pre.atlases@.len() && j != i ==> self.atlases@[j] == pre.atlases@[j],
            self.atlases@[i].wf(),
            self.atlases@[i].spec_width() == pre.max_width,
            self.atlases@[i].spec_height() == pre.max_height,
        ensures
            self.wf(),
    {
        assert forall|j: int| 0 <= j < self.atlases@.len() implies {
            let a = #[trigger] self.atlases@[j];
            &&& a.wf()
            &&& a.spec_width() == self.max_width
            &&& a.spec_height() == self.max_height
        } by {
            if j != i {
                assert(self.atlases@[j] == pre.atlases@[j]);
            }
        }
    }

    /// What `allocate` leaves behind for the format set at index `i`: the
    /// other atlases are untouched, and the texture was placed in the atlas
    /// as it stood, or after the atlas grew to the capped scaled page count
    /// keeping every texture in order, or it was refused with the atlas
    /// unchanged.
    pub open spec fn allocation_outcome(
        self,
        i: int,
        size: [u32; 2],
        over_threshold: bool,
        scaled_pages: u32,
        post: Self,
        r: Result<ManagerAllocation, AtlasManagerError>,
    ) -> bool {
        let a = self.atlases()[i];
        let b = post.atlases()[i];
        let below_max = a.pages() < self.spec_max_pages();
        let proactive = over_threshold && below_max;
        &&& (!proactive && a.has_empty_page()) || (below_max && resize_has_room(
            a.entries(),
            self.spec_max_width(),
            self.spec_max_height(),
            self.grown_pages(scaled_pages),
            Some(size),
        )) ==> r is Ok
        &&& post.atlases().len() == self.atlases().len()
        &&& forall|j: int|
            0 <= j < self.atlases().len() && j != i ==> #[trigger] post.atlases()[j]
                == self.atlases()[j]
        &&& match r {
            Ok(out) => {
                &&& out.moves is None ==> {
                    &&& a.can_place(out.entry.location.page_index as int, size[0] as int, size[1] as int)
                    &&& forall|q: int|
                        0 <= q < out.entry.location.page_index ==> !#[trigger] a.can_place(
                            q,
                            size[0] as int,
                            size[1] as int,
                        )
                }
                &&& out.moves is Some && !proactive ==> forall|q: int|
                    0 <= q < a.pages() ==> !#[trigger] a.can_place(q, size[0] as int, size[1] as int)
                &&& b.entries().last() == out.entry
                &&& out.entry.location.max_x - out.entry.location.min_x == size[0]
                &&& out.entry.location.max_y - out.entry.location.min_y == size[1]
                &&& out.entry.id.serial == a.serial()
                &&& match out.moves {
                    None => {
                        &&& !proactive
                        &&& b.entries() == a.entries().push(out.entry)
                        &&& b.pages() == a.pages()
                    },
                    Some(moves) => {
                        let kept = b.entries().drop_last();
                        &&& below_max
                        &&& b.pages() == self.grown_pages(scaled_pages)
                        &&& moved_from(a.entries(), kept, moves@)
                        &&& kept.len() == a.entries().len()
                        &&& forall|k: int|
                            0 <= k < kept.len() ==> (#[trigger] kept[k]).id == a.entries()[k].id
                    },
                }
            },
            Err(e) => {
                &&& !proactive ==> forall|q: int|
                    0 <= q < a.pages() ==> !#[trigger] a.can_place(q, size[0] as int, size[1] as int)
                &&& e == AtlasManagerError::AtlasError(TextureAtlasError::ResizeFailedNotEnoughSpace)
                    ==> exists|m: AtlasState, k: int|
                    0 <= k <= a.entries().len() && #[trigger] holds_resized(
                        m,
                        a.entries().take(k),
                        self.spec_max_width(),
                        self.spec_max_height(),
                        self.grown_pages(scaled_pages) as nat,
                    ) && ({
                        ||| k < a.entries().len() && refuses(
                            m,
                            a.entries()[k].location.max_x - a.entries()[k].location.min_x,
                            a.entries()[k].location.max_y - a.entries()[k].location.min_y,
                        )
                        ||| k == a.entries().len() && refuses(m, size[0] as int, size[1] as int)
                    })
                &&& same_records(a, b)
                &&& e == AtlasManagerError::AtlasError(
                    TextureAtlasError::AllocationFailedNotEnoughSpace,
                ) ==> !proactive && !below_max
                &&& e == AtlasManagerError::AtlasError(TextureAtlasError::ResizeFailedNotEnoughSpace)
                    ==> below_max
                &&& e == AtlasManagerError::AtlasError(
                    TextureAtlasError::AllocationFailedNotEnoughSpace,
                ) || e == AtlasManagerError::AtlasError(
                    TextureAtlasError::ResizeFailedNotEnoughSpace,
                )
            },
        }
    }

    /// Takes the texture `id` out of the atlas of `formats`; `false` when
    /// there is no such atlas or no such texture in it.
    pub fn deallocate(&mut self, formats: &Vec<u32>, id: TextureId) -> (r: bool)
        requires
            old(self).wf(),
        ensures
            final(self).wf(),
            final(self).spec_max_width() == old(self).spec_max_width(),
            final(self).spec_max_height() == old(self).spec_max_height(),
            final(self).spec_max_pages() == old(self).spec_max_pages(),
            final(self).spec_initial_pages() == old(self).spec_initial_pages(),
            final(self).format_sets() == old(self).format_sets(),
            final(self).atlases().len() == old(self).atlases().len(),
            find_set(old(self).format_sets(), *formats) is None ==> !r && *final(self) == *old(self),
            find_set(old(self).format_sets(), *formats) matches Some(i) ==> {
                let a = old(self).atlases()[i];
                let b = final(self).atlases()[i];
                &&& forall|j: int|
                    0 <= j < old(self).atlases().len() && j != i ==> #[trigger] final(self).atlases()[j]
                        == old(self).atlases()[j]
                &&& r <==> crate::texture_atlas::entry_index(a.entries(), id) is Some
                &&& r ==> b.entries() == a.entries().remove(
                    crate::texture_atlas::entry_index(a.entries(), id)->0,
                )
                &&& !r ==> b == a
                &&& r ==> b.spec_usage() as int == (crate::texture_atlas::total_area(a.entries())
                    - a.entries()[crate::texture_atlas::entry_index(a.entries(), id)->0].location.spec_area())
                    % (usize::MAX as int + 1)
                &&& b.pages() == a.pages()
                &&& b.serial() == a.serial()
            },
    {
        let i = match self.find(formats) {
            Some(i) => i,
            None => {
                return false;
            },
        };
        assert(find_set(old(self).format_sets(), *formats) == Some(i as int));
        let done = AtlasState::deallocate(&mut self.atlases[i], id);
        proof {
            self.lemma_replaced_keeps_wf(*old(self), i as int);
            assert forall|j: int| 0 <= j < old(self).atlases@.len() && j != i implies #[trigger] self.atlases@[j]
                == old(self).atlases@[j] by {}
        }
        match done {
            Ok(()) => true,
            Err(_) => false,
        }
    }
}

} // verus!
