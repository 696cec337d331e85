use vstd::prelude::*;
use guillotiere::AtlasAllocator;
use crate::benchmark::{append_decimal, decimal};

verus! {

// MARK: guillotiere

#[verifier::external_type_specification]
#[verifier::external_body]
pub struct ExAtlasAllocator(AtlasAllocator);

/// The rectangles that a `guillotiere` allocator has handed out and not yet
/// taken back, by the number of their `AllocId`, each as
/// `(min_x, min_y, max_x, max_y)`.
pub uninterp spec fn live_rects(a: AtlasAllocator) -> Map<u32, (int, int, int, int)>;

/// The width and height that a `guillotiere` allocator was made with.
pub uninterp spec fn allocator_extent(a: AtlasAllocator) -> (int, int);

/// The length of a `guillotiere` allocator's node table; allocation ids
/// are unique only while it stays at or below `2^24`.
pub uninterp spec fn allocator_nodes(a: AtlasAllocator) -> nat;

/// Whether a `guillotiere` allocator holds a free rectangle at least `w`
/// wide and `h` high, in the free lists that `allocate` searches.
pub uninterp spec fn allocator_fits(a: AtlasAllocator, w: int, h: int) -> bool;

/// The largest node table for which `guillotiere`'s ids stay unique.
pub const NODE_LIMIT: u32 = 16777216;

/// `guillotiere::AtlasAllocator::new` with the default options: an allocator
/// for a `width` by `height` area that has handed out nothing. The crate
/// asserts (panics) unless both sides are positive.
#[verifier::external_body]
fn new_allocator(width: i32, height: i32) -> (fresh: AtlasAllocator)
    requires
        width > 0,
        height > 0,
    ensures
        live_rects(fresh).dom().is_empty(),
        allocator_extent(fresh) == (width as int, height as int),
        allocator_nodes(fresh) == 1,
{
    AtlasAllocator::new(guillotiere::size2(width, height))
}

/// `guillotiere::AtlasAllocator::allocate`: finds room for a `width` by
/// `height` rectangle. With the default alignment of one the rectangle has
/// exactly the requested size, its corner is the corner of a free rectangle
/// inside the area, and it overlaps no rectangle still handed out; an empty
/// request is refused; a refusal hands out nothing and adds no node. An
/// allocator that holds nothing is one free rectangle of its whole size,
/// so a request that fits it succeeds. Otherwise the search looks at every
/// free rectangle in the size class of the request and the larger ones, and
/// takes one that is large enough if there is one, so the call succeeds
/// exactly when the request is not empty and such a free rectangle exists.
/// A refusal only drops stale entries from the free lists, so the free
/// rectangles stay as they were. A success adds at most four nodes;
/// with the table kept within `2^24` entries, the returned number
/// (`AllocId::serialize`) differs from every id still handed out.
#[verifier::external_body]
fn allocate_rect(a: &mut AtlasAllocator, width: i32, height: i32) -> (r: Option<(u32, i32, i32)>)
    requires
        allocator_nodes(*old(a)) + 4 <= NODE_LIMIT,
    ensures
        allocator_extent(*final(a)) == allocator_extent(*old(a)),
        allocator_nodes(*final(a)) <= allocator_nodes(*old(a)) + 4,
        r is Some <==> (0 < width && 0 < height && allocator_fits(*old(a), width as int, height as int)),
        live_rects(*old(a)).dom().is_empty() && 0 < width <= allocator_extent(*old(a)).0 && 0
            < height <= allocator_extent(*old(a)).1 ==> r is Some,
        r is None ==> live_rects(*final(a)) == live_rects(*old(a)) && allocator_nodes(*final(a))
            == allocator_nodes(*old(a)),
        r is None ==> forall|w: int, h: int|
            #[trigger] allocator_fits(*final(a), w, h) == allocator_fits(*old(a), w, h),
        r matches Some((id, x, y)) ==> {
            &&& !live_rects(*old(a)).contains_key(id)
            &&& live_rects(*final(a)) == live_rects(*old(a)).insert(
                id,
                (x as int, y as int, x + width, y + height),
            )
            &&& 0 <= x && x + width <= allocator_extent(*old(a)).0
            &&& 0 <= y && y + height <= allocator_extent(*old(a)).1
            &&& forall|other: u32| #[trigger]
                live_rects(*old(a)).contains_key(other) ==> rects_apart(
                    live_rects(*old(a))[other],
                    (x as int, y as int, x + width, y + height),
                )
        },
{
    match a.allocate(guillotiere::size2(width, height)) {
        Some(alloc) => Some((alloc.id.serialize(), alloc.rectangle.min.x, alloc.rectangle.min.y)),
        None => None,
    }
}

/// `guillotiere::AtlasAllocator::deallocate`: takes back a rectangle that is
/// still handed out (the crate asserts, and so panics, otherwise).
#[verifier::external_body]
fn deallocate_rect(a: &mut AtlasAllocator, id: u32)
    requires
        live_rects(*old(a)).contains_key(id),
    ensures
        allocator_extent(*final(a)) == allocator_extent(*old(a)),
        allocator_nodes(*final(a)) == allocator_nodes(*old(a)),
        live_rects(*final(a)) == live_rects(*old(a)).remove(id),
{
    a.deallocate(guillotiere::AllocId::deserialize(id))
}

// MARK: uuid

/// `uuid::Uuid::new_v4` as a number: random, so nothing is promised of it.
#[verifier::external_body]
fn new_uuid() -> (r: u128) {
    uuid::Uuid::new_v4().as_u128()
}

// MARK: geometry

/// Two rectangles `(min_x, min_y, max_x, max_y)` share no pixel.
pub open spec fn rects_apart(a: (int, int, int, int), b: (int, int, int, int)) -> bool {
    a.2 <= b.0 || b.2 <= a.0 || a.3 <= b.1 || b.3 <= a.1
}


// MARK: textures

/// Names one texture of an atlas: a random UUID and the atlas's serial
/// number for it.
#[derive(Debug, Clone, Copy, PartialEq, Eq, Hash, Structural)]
pub struct TextureId {
    pub texture_uuid: u128,
    pub serial: u64,
}

/// Where a texture sits: the page and the pixel rectangle
/// `[min_x, max_x) x [min_y, max_y)` on it.
#[derive(Debug, Clone, Copy, PartialEq, Eq, Structural)]
pub struct TextureLocation {
    pub page_index: u32,
    pub min_x: i32,
    pub min_y: i32,
    pub max_x: i32,
    pub max_y: i32,
}

impl TextureLocation {
    pub open spec fn rect(self) -> (int, int, int, int) {
        (self.min_x as int, self.min_y as int, self.max_x as int, self.max_y as int)
    }

    pub open spec fn spec_area(self) -> int {
        (self.max_x - self.min_x) * (self.max_y - self.min_y)
    }

    /// Width and height in pixels.
    pub fn size(&self) -> (r: [u32; 2])
        requires
            0 <= self.min_x <= self.max_x,
            0 <= self.min_y,
            self.min_y <= self.max_y,
        ensures
            r[0] == self.max_x - self.min_x,
            r[1] == self.max_y - self.min_y,
    {
        [(self.max_x - self.min_x) as u32, (self.max_y - self.min_y) as u32]
    }
}

/// One texture's record: its name, place and the allocator's id for it.
#[derive(Debug, Clone, Copy, PartialEq, Eq, Structural)]
pub struct TextureEntry {
    pub id: TextureId,
    pub location: TextureLocation,
    pub alloc_id: u32,
}

#[derive(Debug, Clone, Copy, PartialEq, Eq, Structural)]
pub enum TextureAtlasError {
    /// Allocation failed because there was not enough space in the atlas.
    AllocationFailedNotEnoughSpace,
    /// Resizing the atlas failed because there was not enough space for all the textures.
    ResizeFailedNotEnoughSpace,
    /// Allocation failed because the requested size is too large for the atlas.
    AllocationFailedTooLarge,
}

/// Why texture data handed over for writing does not fit the texture.
#[derive(Debug, Clone, Copy, PartialEq, Eq, Structural)]
pub enum TextureDataError {
    /// There is not one data slice per format.
    CountMismatch,
    /// A format has no fixed number of bytes per pixel.
    InvalidFormatBlockCopySize,
    /// The slice for the format at this index does not hold exactly one
    /// texture's worth of bytes.
    SizeMismatch(usize),
}

/// Why reading or writing a texture's pixels failed.
#[derive(Debug, Clone, PartialEq, Eq)]
pub enum TextureError {
    /// The atlas that held the texture is gone.
    AtlasGone,
    /// The atlas no longer knows the texture.
    TextureNotFoundInAtlas,
    /// The data given does not match the texture; the text says how.
    DataConsistencyError(String),
    /// A format has no fixed number of bytes per pixel.
    InvalidFormatBlockCopySize,
}

/// The error that a write reports for a failed data check, with the text
/// that names the slice at fault.
pub fn texture_error_of(e: TextureDataError) -> (r: TextureError)
    ensures
        e is CountMismatch ==> (r matches TextureError::DataConsistencyError(m) && m@
            == "Data length does not match formats length"@),
        e is InvalidFormatBlockCopySize ==> r is InvalidFormatBlockCopySize,
        e matches TextureDataError::SizeMismatch(i) ==> (r matches TextureError::DataConsistencyError(
            m,
        ) && m@ == "Data size for format "@ + decimal(i as nat)
            + " does not match expected size"@),
{
    match e {
        TextureDataError::CountMismatch => {
            TextureError::DataConsistencyError(
                String::from_str("Data length does not match formats length"),
            )
        },
        TextureDataError::InvalidFormatBlockCopySize => TextureError::InvalidFormatBlockCopySize,
        TextureDataError::SizeMismatch(i) => {
            let mut m = String::from_str("Data size for format ");
            append_decimal(&mut m, i as u64);
            m.append(" does not match expected size");
            TextureError::DataConsistencyError(m)
        },
    }
}

/// The check of the slices from index `from` on: each format must have a
/// block size, and each slice's length, cut to 32 bits, must be the
/// texture's pixel count times that size.
pub open spec fn data_check_from(
    size: [u32; 2],
    block_sizes: Seq<Option<u32>>,
    data_lens: Seq<usize>,
    from: int,
) -> Result<(), TextureDataError>
    decreases block_sizes.len() - from,
{
    if from < 0 || from >= block_sizes.len() {
        Ok(())
    } else {
        match block_sizes[from] {
            None => Err(TextureDataError::InvalidFormatBlockCopySize),
            Some(b) => if (data_lens[from] as u32) as int != size[0] * size[1] * b {
                Err(TextureDataError::SizeMismatch(from as usize))
            } else {
                data_check_from(size, block_sizes, data_lens, from + 1)
            },
        }
    }
}

/// The outcome of checking data for a texture of `size` pixels in formats
/// with the given block sizes: one slice per format, in order, each the
/// right length.
pub open spec fn data_check(size: [u32; 2], block_sizes: Seq<Option<u32>>, data_lens: Seq<usize>) -> Result<
    (),
    TextureDataError,
> {
    if block_sizes.len() != data_lens.len() {
        Err(TextureDataError::CountMismatch)
    } else {
        data_check_from(size, block_sizes, data_lens, 0)
    }
}

/// Slice `i` suits the texture: its format has a block size and the slice's
/// length, cut to 32 bits, is the pixel count times that size.
pub open spec fn slice_fits(size: [u32; 2], block_sizes: Seq<Option<u32>>, data_lens: Seq<usize>, i: int) -> bool {
    block_sizes[i] matches Some(b) && (data_lens[i] as u32) as int == size[0] * size[1] * b
}

proof fn lemma_data_check_from(
    size: [u32; 2],
    block_sizes: Seq<Option<u32>>,
    data_lens: Seq<usize>,
    from: int,
)
    requires
        0 <= from <= block_sizes.len(),
        block_sizes.len() == data_lens.len(),
        block_sizes.len() <= usize::MAX,
    ensures
        data_check_from(size, block_sizes, data_lens, from) is Ok <==> forall|i: int|
            from <= i < block_sizes.len() ==> #[trigger] slice_fits(size, block_sizes, data_lens, i),
        data_check_from(size, block_sizes, data_lens, from) matches Err(e) ==> {
            &&& e !is CountMismatch
            &&& e matches TextureDataError::SizeMismatch(k) ==> {
                &&& from <= k < block_sizes.len()
                &&& block_sizes[k as int] is Some
                &&& !slice_fits(size, block_sizes, data_lens, k as int)
                &&& forall|i: int| from <= i < k ==> #[trigger] slice_fits(size, block_sizes, data_lens, i)
            }
            &&& e is InvalidFormatBlockCopySize ==> exists|k: int|
                from <= k < block_sizes.len() && block_sizes[k] is None && forall|i: int|
                    from <= i < k ==> #[trigger] slice_fits(size, block_sizes, data_lens, i)
        },
    decreases block_sizes.len() - from,
{
    if from < block_sizes.len() {
        lemma_data_check_from(size, block_sizes, data_lens, from + 1);
        let r = data_check_from(size, block_sizes, data_lens, from);
        match block_sizes[from] {
            None => {
                assert(!slice_fits(size, block_sizes, data_lens, from));
                assert(r == Err::<(), TextureDataError>(TextureDataError::InvalidFormatBlockCopySize));
                assert(forall|i: int| from <= i < from ==> #[trigger] slice_fits(size, block_sizes, data_lens, i));
            },
            Some(b) => {
                if (data_lens[from] as u32) as int != size[0] * size[1] * b {
                    assert(!slice_fits(size, block_sizes, data_lens, from));
                    assert(r == Err::<(), TextureDataError>(TextureDataError::SizeMismatch(from as usize)));
                    assert((from as usize) as int == from);
                } else {
                    assert(slice_fits(size, block_sizes, data_lens, from));
                    assert(r == data_check_from(size, block_sizes, data_lens, from + 1));
                    assert((forall|i: int| from <= i < block_sizes.len() ==> #[trigger] slice_fits(size, block_sizes, data_lens, i))
                        == (forall|i: int| from + 1 <= i < block_sizes.len() ==> #[trigger] slice_fits(size, block_sizes, data_lens, i)));
                    if r == Err::<(), TextureDataError>(TextureDataError::InvalidFormatBlockCopySize) {
                        let k = choose|k: int|
                            from + 1 <= k < block_sizes.len() && block_sizes[k] is None && forall|i: int|
                                from + 1 <= i < k ==> #[trigger] slice_fits(size, block_sizes, data_lens, i);
                        assert forall|i: int| from <= i < k implies #[trigger] slice_fits(size, block_sizes, data_lens, i) by {}
                    }
                }
            },
        }
    }
}

/// The data check passes exactly when there is one slice per format and
/// every slice suits the texture (`slice_fits`). A failure names the fault:
/// a count mismatch exactly when the counts differ; otherwise the first
/// slice at fault, as a size mismatch at its index or a format without a
/// block size.
pub proof fn law_data_check_accepts_exactly(
    size: [u32; 2],
    block_sizes: Seq<Option<u32>>,
    data_lens: Seq<usize>,
)
    requires
        block_sizes.len() <= usize::MAX,
    ensures
        data_check(size, block_sizes, data_lens) is Ok <==> block_sizes.len() == data_lens.len()
            && forall|i: int| 0 <= i < block_sizes.len() ==> #[trigger] slice_fits(size, block_sizes, data_lens, i),
        data_check(size, block_sizes, data_lens) == Err::<(), TextureDataError>(
            TextureDataError::CountMismatch,
        ) <==> block_sizes.len() != data_lens.len(),
        data_check(size, block_sizes, data_lens) matches Err(TextureDataError::SizeMismatch(k)) ==> {
            &&& k < block_sizes.len()
            &&& block_sizes[k as int] is Some
            &&& !slice_fits(size, block_sizes, data_lens, k as int)
            &&& forall|i: int| 0 <= i < k ==> #[trigger] slice_fits(size, block_sizes, data_lens, i)
        },
        data_check(size, block_sizes, data_lens) == Err::<(), TextureDataError>(
            TextureDataError::InvalidFormatBlockCopySize,
        ) ==> exists|k: int|
            0 <= k < block_sizes.len() && block_sizes[k] is None && forall|i: int|
                0 <= i < k ==> #[trigger] slice_fits(size, block_sizes, data_lens, i),
{
    if block_sizes.len() == data_lens.len() {
        lemma_data_check_from(size, block_sizes, data_lens, 0);
    }
}

/// Checks that data slices of lengths `data_lens` can be written into a
/// texture of `size` pixels whose formats have the given block sizes.
pub fn check_texture_data(size: [u32; 2], block_sizes: &Vec<Option<u32>>, data_lens: &Vec<usize>) -> (r:
    Result<(), TextureDataError>)
    requires
        size[0] * size[1] <= u32::MAX,
        forall|i: int|
            0 <= i < block_sizes.len() ==> ((#[trigger] block_sizes[i]) matches Some(b) ==> size[0]
                * size[1] * b <= u32::MAX),
    ensures
        r == data_check(size, block_sizes@, data_lens@),
{
    if block_sizes.len() != data_lens.len() {
        return Err(TextureDataError::CountMismatch);
    }
    let mut i: usize = 0;
    while i < block_sizes.len()
        invariant
            i <= block_sizes@.len(),
            block_sizes@.len() == data_lens@.len(),
            size[0] * size[1] <= u32::MAX,
            data_check(size, block_sizes@, data_lens@) == data_check_from(
                size,
                block_sizes@,
                data_lens@,
                i as int,
            ),
            forall|j: int|
                0 <= j < block_sizes.len() ==> ((#[trigger] block_sizes[j]) matches Some(b) ==> size[0]
                    * size[1] * b <= u32::MAX),
        decreases block_sizes@.len() - i,
    {
        match block_sizes[i] {
            None => {
                return Err(TextureDataError::InvalidFormatBlockCopySize);
            },
            Some(b) => {
                proof {
                    assert(block_sizes[i as int] == Some(b));
                }
                let expected = size[0] * size[1] * b;
                if data_lens[i] as u32 != expected {
                    return Err(TextureDataError::SizeMismatch(i));
                }
            },
        }
        i = i + 1;
    }
    Ok(())
}

/// The texture was not known to the atlas.
#[derive(Debug, Clone, Copy, PartialEq, Eq, Structural)]
pub struct DeallocationErrorTextureNotFound;

/// Sum of the areas of the entries' rectangles.
pub open spec fn total_area(s: Seq<TextureEntry>) -> int
    decreases s.len(),
{
    if s.len() == 0 {
        0
    } else {
        total_area(s.drop_last()) + s.last().location.spec_area()
    }
}

proof fn lemma_total_area_concat(a: Seq<TextureEntry>, b: Seq<TextureEntry>)
    ensures
        total_area(a + b) == total_area(a) + total_area(b),
    decreases b.len(),
{
    if b.len() == 0 {
        assert(a + b =~= a);
    } else {
        lemma_total_area_concat(a, b.drop_last());
        assert((a + b).drop_last() =~= a + b.drop_last());
    }
}

proof fn lemma_total_area_remove(s: Seq<TextureEntry>, i: int)
    requires
        0 <= i < s.len(),
    ensures
        total_area(s.remove(i)) == total_area(s) - s[i].location.spec_area(),
{
    let a = s.take(i);
    let b = s.skip(i + 1);
    assert(s =~= a + seq![s[i]] + b);
    assert(s.remove(i) =~= a + b);
    lemma_total_area_concat(a + seq![s[i]], b);
    lemma_total_area_concat(a, seq![s[i]]);
    lemma_total_area_concat(a, b);
    assert(seq![s[i]].drop_last() =~= Seq::<TextureEntry>::empty());
    assert(total_area(Seq::<TextureEntry>::empty()) == 0);
    assert(total_area(seq![s[i]]) == s[i].location.spec_area());
}

proof fn lemma_total_area_nonneg(s: Seq<TextureEntry>)
    requires
        forall|i: int|
            0 <= i < s.len() ==> (#[trigger] s[i]).location.min_x <= s[i].location.max_x
                && s[i].location.min_y <= s[i].location.max_y,
    ensures
        total_area(s) >= 0,
    decreases s.len(),
{
    if s.len() > 0 {
        lemma_total_area_nonneg(s.drop_last());
        let l = s.last().location;
        assert(l.spec_area() >= 0) by (nonlinear_arith)
            requires
                l.min_x <= l.max_x,
                l.min_y <= l.max_y,
                l.spec_area() == (l.max_x - l.min_x) * (l.max_y - l.min_y),
        ;
    }
}

/// Adding `area` to a counter that holds `total` modulo `m`, wrapping at
/// `m`, gives `total + area` modulo `m`.
proof fn lemma_wrap_add(total: int, area: int, m: int)
    requires
        m > 0,
        total >= 0,
        0 <= area < m,
    ensures
        (if total % m + area >= m {
            total % m + area - m
        } else {
            total % m + area
        }) == (total + area) % m,
{
    let u = total % m;
    vstd::arithmetic::div_mod::lemma_add_mod_noop(total, area, m);
    vstd::arithmetic::div_mod::lemma_small_mod(area as nat, m as nat);
    if u + area < m {
        vstd::arithmetic::div_mod::lemma_small_mod((u + area) as nat, m as nat);
    } else {
        vstd::arithmetic::div_mod::lemma_mod_sub_multiples_vanish(u + area, m);
        vstd::arithmetic::div_mod::lemma_small_mod((u + area - m) as nat, m as nat);
    }
}

/// Taking `area` from a counter that holds `total` modulo `m`, wrapping at
/// zero, gives `total - area` modulo `m`.
proof fn lemma_wrap_sub(total: int, area: int, m: int)
    requires
        m > 0,
        total >= area >= 0,
        area < m,
    ensures
        (if total % m - area < 0 {
            total % m - area + m
        } else {
            total % m - area
        }) == (total - area) % m,
{
    let u = total % m;
    vstd::arithmetic::div_mod::lemma_sub_mod_noop(total, area, m);
    vstd::arithmetic::div_mod::lemma_small_mod(area as nat, m as nat);
    if u - area >= 0 {
        vstd::arithmetic::div_mod::lemma_small_mod((u - area) as nat, m as nat);
    } else {
        vstd::arithmetic::div_mod::lemma_mod_add_multiples_vanish(u - area, m);
        vstd::arithmetic::div_mod::lemma_small_mod((u - area + m) as nat, m as nat);
    }
}

/// Some texture of `s` is on page `p`.
pub open spec fn page_used_in(s: Seq<TextureEntry>, p: int) -> bool {
    exists|i: int| 0 <= i < s.len() && (#[trigger] s[i]).location.page_index == p
}

/// One of the first `pages` pages holds no texture of `s`.
pub open spec fn empty_page_in(s: Seq<TextureEntry>, pages: nat) -> bool {
    exists|p: int| 0 <= p < pages && !#[trigger] page_used_in(s, p)
}

/// The texture `e` fits a page of `w` by `h` pixels.
pub open spec fn fits_page(e: TextureEntry, w: int, h: int) -> bool {
    e.location.max_x - e.location.min_x <= w && e.location.max_y - e.location.min_y <= h
}

/// A resize to `pages` pages of `w` by `h` pixels that keeps every texture
/// of `s` and adds `new_allocation` has room for them all: each fits a
/// page, and there is a page for each.
pub open spec fn resize_has_room(
    s: Seq<TextureEntry>,
    w: u32,
    h: u32,
    pages: u32,
    new_allocation: Option<[u32; 2]>,
) -> bool {
    &&& forall|k: int| 0 <= k < s.len() ==> fits_page(#[trigger] s[k], w as int, h as int)
    &&& new_allocation matches Some(size) ==> 0 < size[0] <= w && 0 < size[1] <= h
    &&& s.len() + (if new_allocation is Some {
        1int
    } else {
        0int
    }) <= pages
}

/// `a` and `b` name the same texture and have the same size.
pub open spec fn same_texture(a: TextureEntry, b: TextureEntry) -> bool {
    &&& a.id == b.id
    &&& a.location.max_x - a.location.min_x == b.location.max_x - b.location.min_x
    &&& a.location.max_y - a.location.min_y == b.location.max_y - b.location.min_y
}

/// `mid` is a well-formed atlas of `pages` pages of `w` by `h` pixels that
/// holds, in order, the textures of `s` with their names and sizes.
pub open spec fn holds_resized(mid: AtlasState, s: Seq<TextureEntry>, w: u32, h: u32, pages: nat) -> bool {
    &&& mid.wf()
    &&& mid.spec_width() == w
    &&& mid.spec_height() == h
    &&& mid.pages() == pages
    &&& mid.entries().len() == s.len()
    &&& forall|j: int| 0 <= j < s.len() ==> same_texture(#[trigger] mid.entries()[j], s[j])
}

/// No page of `mid` takes a texture `w` by `h` pixels: it is empty or
/// larger than a page, or every page's allocator refuses it.
pub open spec fn refuses(mid: AtlasState, w: int, h: int) -> bool {
    ||| !(0 < w <= mid.spec_width() && 0 < h <= mid.spec_height())
    ||| forall|q: int| 0 <= q < mid.pages() ==> !#[trigger] mid.can_place(q, w, h)
}

/// Some texture of `s` is named `id`.
pub open spec fn names(s: Seq<TextureEntry>, id: TextureId) -> bool {
    exists|k: int| 0 <= k < s.len() && s[k].id == id
}

/// `m` is a well-formed atlas of `pages` pages of `w` by `h` pixels that
/// holds the first textures of `kept`, each of them one of the textures of
/// `s` before index `j`.
pub open spec fn earlier_state(
    m: AtlasState,
    s: Seq<TextureEntry>,
    kept: Seq<TextureEntry>,
    j: int,
    w: u32,
    h: u32,
    pages: nat,
) -> bool {
    &&& m.wf()
    &&& m.spec_width() == w
    &&& m.spec_height() == h
    &&& m.pages() == pages
    &&& m.entries().len() <= kept.len()
    &&& m.entries() == kept.take(m.entries().len() as int)
    &&& forall|k: int| 0 <= k < m.entries().len() ==> names(s.take(j), #[trigger] m.entries()[k].id)
}

/// The states recorded while textures of `s` are moved one by one into a
/// resized atlas that now holds `kept`: before each of the first `i`
/// textures, the atlas as it stood then, in which a texture that was not
/// kept found no room.
#[verifier::opaque]
spec fn trace_ok(
    trace: Seq<AtlasState>,
    s: Seq<TextureEntry>,
    kept: Seq<TextureEntry>,
    i: int,
    w: u32,
    h: u32,
    pages: nat,
) -> bool {
    &&& trace.len() == i
    &&& forall|j: int| 0 <= j < i ==> earlier_state(#[trigger] trace[j], s, kept, j, w, h, pages)
    &&& forall|j: int|
        0 <= j < i && !names(kept, #[trigger] s[j].id) ==> refuses(
            trace[j],
            s[j].location.max_x - s[j].location.min_x,
            s[j].location.max_y - s[j].location.min_y,
        )
}

/// Each texture of `s` that a resize to pages of `w` by `h` pixels did not
/// keep in `kept` found no room: some earlier state of the resized atlas,
/// holding the first textures of `kept`, all from before it in `s`,
/// refuses it.
#[verifier::opaque]
pub open spec fn drops_refused(
    s: Seq<TextureEntry>,
    kept: Seq<TextureEntry>,
    w: u32,
    h: u32,
    pages: nat,
) -> bool {
    forall|j: int|
        0 <= j < s.len() && !names(kept, #[trigger] s[j].id) ==> exists|m: AtlasState|
            earlier_state(m, s, kept, j, w, h, pages) && refuses(
                m,
                s[j].location.max_x - s[j].location.min_x,
                s[j].location.max_y - s[j].location.min_y,
            )
}

/// One texture further in a resize: the state before it is recorded, and
/// a texture that no page took is refused there.
proof fn lemma_trace_step(
    trace: Seq<AtlasState>,
    pre: AtlasState,
    s: Seq<TextureEntry>,
    before: Seq<TextureEntry>,
    after: Seq<TextureEntry>,
    i: int,
    placed: bool,
    w: u32,
    h: u32,
    pages: nat,
)
    requires
        0 <= i < s.len(),
        trace_ok(trace, s, before, i, w, h, pages),
        pre.wf(),
        pre.spec_width() == w,
        pre.spec_height() == h,
        pre.pages() == pages,
        pre.entries() == before,
        forall|k: int|
            0 <= k < before.len() ==> exists|j: int| 0 <= j < i && (#[trigger] before[k]).id == s[j].id,
        placed ==> after.len() == before.len() + 1 && after.drop_last() == before && after.last().id
            == s[i].id,
        !placed ==> after == before && refuses(
            pre,
            s[i].location.max_x - s[i].location.min_x,
            s[i].location.max_y - s[i].location.min_y,
        ),
    ensures
        trace_ok(trace.push(pre), s, after, i + 1, w, h, pages),
{
    reveal(trace_ok);
    let t2 = trace.push(pre);
    assert forall|j: int| 0 <= j < i + 1 implies earlier_state(#[trigger] t2[j], s, after, j, w, h, pages) by {
        if j < i {
            let m = trace[j];
            assert(t2[j] == m);
            assert(earlier_state(m, s, before, j, w, h, pages));
            let n = m.entries().len() as int;
            if placed {
                assert(before == after.drop_last());
                assert(after.take(n) =~= before.take(n));
            }
            assert(m.entries() == after.take(n));
        } else {
            assert(t2[j] == pre);
            let n = before.len() as int;
            assert(after.take(n) =~= before);
            assert forall|k: int| 0 <= k < n implies names(s.take(j), #[trigger] pre.entries()[k].id) by {
                let jj = choose|jj: int| 0 <= jj < i && (#[trigger] before[k]).id == s[jj].id;
                assert(s.take(j)[jj] == s[jj]);
            }
        }
    }
    assert forall|j: int|
        0 <= j < i + 1 && !names(after, #[trigger] s[j].id) implies refuses(
            t2[j],
            s[j].location.max_x - s[j].location.min_x,
            s[j].location.max_y - s[j].location.min_y,
        ) by {
        if j < i {
            assert(t2[j] == trace[j]);
            if names(before, s[j].id) {
                let k = choose|k: int| 0 <= k < before.len() && before[k].id == s[j].id;
                if placed {
                    assert(after[k] == after.drop_last()[k]);
                }
                assert(after[k] == before[k]);
            }
        } else {
            assert(t2[j] == pre);
            if placed {
                assert(after[after.len() - 1].id == s[j].id);
            }
        }
    }
}

/// A full record of a resize gives, for each texture that was not kept, an
/// earlier state of the resized atlas in which no page took it.
proof fn lemma_trace_done(
    trace: Seq<AtlasState>,
    s: Seq<TextureEntry>,
    kept: Seq<TextureEntry>,
    w: u32,
    h: u32,
    pages: nat,
)
    requires
        trace_ok(trace, s, kept, s.len() as int, w, h, pages),
    ensures
        drops_refused(s, kept, w, h, pages),
{
    reveal(trace_ok);
    reveal(drops_refused);
    assert forall|j: int| 0 <= j < s.len() && !names(kept, #[trigger] s[j].id) implies exists|m: AtlasState|
        earlier_state(m, s, kept, j, w, h, pages) && refuses(
            m,
            s[j].location.max_x - s[j].location.min_x,
            s[j].location.max_y - s[j].location.min_y,
        ) by {
        assert(earlier_state(trace[j], s, kept, j, w, h, pages));
    }
}

/// Nothing is recorded before the first texture.
proof fn lemma_trace_start(s: Seq<TextureEntry>, kept: Seq<TextureEntry>, w: u32, h: u32, pages: nat)
    ensures
        trace_ok(Seq::empty(), s, kept, 0, w, h, pages),
{
    reveal(trace_ok);
}

/// An atlas that holds the first `k` textures of `s` with their names and
/// sizes holds `s.take(k)`.
proof fn lemma_holds_prefix(mid: AtlasState, s: Seq<TextureEntry>, k: int, w: u32, h: u32, pages: nat)
    requires
        mid.wf(),
        mid.spec_width() == w,
        mid.spec_height() == h,
        mid.pages() == pages,
        0 <= k <= s.len(),
        mid.entries().len() == k,
        forall|j: int| 0 <= j < k ==> same_texture(#[trigger] mid.entries()[j], s[j]),
    ensures
        holds_resized(mid, s.take(k), w, h, pages),
{
    assert forall|j: int| 0 <= j < k implies same_texture(#[trigger] mid.entries()[j], s.take(k)[j]) by {
        assert(s.take(k)[j] == s[j]);
    }
}

/// Fewer textures than pages leave a page empty.
proof fn lemma_empty_page_exists(s: Seq<TextureEntry>, pages: nat)
    requires
        s.len() < pages,
    ensures
        empty_page_in(s, pages),
{
    broadcast use vstd::seq_lib::seq_to_set_is_finite;

    let m = s.map_values(|e: TextureEntry| e.location.page_index as int);
    m.lemma_cardinality_of_set();
    if !empty_page_in(s, pages) {
        assert forall|p: int| vstd::set_lib::set_int_range(0, pages as int).contains(p) implies m.to_set().contains(
            p,
        ) by {
            assert(page_used_in(s, p));
            let i = choose|i: int| 0 <= i < s.len() && (#[trigger] s[i]).location.page_index == p;
            assert(m[i] == p);
        }
        vstd::set_lib::lemma_int_range(0, pages as int);
        vstd::set_lib::lemma_len_subset(vstd::set_lib::set_int_range(0, pages as int), m.to_set());
    }
}

/// The entry for `id` in `s`, if any.
pub open spec fn entry_index(s: Seq<TextureEntry>, id: TextureId) -> Option<int> {
    if exists|i: int| 0 <= i < s.len() && s[i].id == id {
        Some(choose|i: int| 0 <= i < s.len() && s[i].id == id)
    } else {
        None
    }
}

/// The allocation bookkeeping of a texture atlas: pages of `width` by
/// `height` pixels, one `guillotiere` allocator per page, the textures
/// placed so far, and the pixel usage, which wraps around as an atomic
/// counter does.
pub struct AtlasState {
    width: u32,
    height: u32,
    allocators: Vec<AtlasAllocator>,
    // an upper bound on each allocator's node table
    node_bounds: Vec<u32>,
    entries: Vec<TextureEntry>,
    usage: usize,
    next_serial: u64,
}

/// Changing only the next serial number keeps an atlas well formed as long
/// as every name stays below it.
proof fn lemma_wf_other_serial(a: AtlasState, b: AtlasState)
    requires
        a.wf(),
        b.width == a.width,
        b.height == a.height,
        b.allocators == a.allocators,
        b.node_bounds == a.node_bounds,
        b.entries == a.entries,
        b.usage == a.usage,
        forall|i: int| 0 <= i < b.entries@.len() ==> (#[trigger] b.entries@[i]).id.serial < b.next_serial,
    ensures
        b.wf(),
{
    assert forall|p: int, k: u32|
        0 <= p < b.allocators@.len() && #[trigger] b.live(p).contains_key(k) implies exists|i: int|
        0 <= i < b.entries@.len() && (#[trigger] b.entries@[i]).location.page_index == p
            && b.entries@[i].alloc_id == k by {
        assert(a.live(p).contains_key(k));
    }
    assert(b.entries() == a.entries());
}

impl AtlasState {
    pub closed spec fn spec_width(self) -> u32 {
        self.width
    }

    pub closed spec fn spec_height(self) -> u32 {
        self.height
    }

    pub closed spec fn pages(self) -> nat {
        self.allocators@.len()
    }

    /// The textures placed, in the order they were placed.
    pub closed spec fn entries(self) -> Seq<TextureEntry> {
        self.entries@
    }

    pub closed spec fn spec_usage(self) -> usize {
        self.usage
    }

    pub closed spec fn serial(self) -> u64 {
        self.next_serial
    }

    /// What page `p`'s allocator still has handed out.
    pub closed spec fn live(self, p: int) -> Map<u32, (int, int, int, int)> {
        live_rects(self.allocators@[p])
    }

    /// Page `p`'s allocator.
    pub closed spec fn allocator(self, p: int) -> AtlasAllocator {
        self.allocators@[p]
    }

    /// Page `p` may take one more rectangle: the recorded bound on its
    /// allocator's node table leaves room for the four nodes an allocation
    /// can add without passing `NODE_LIMIT`.
    pub closed spec fn has_node_room(self, p: int) -> bool {
        self.node_bounds@[p] + 4 <= NODE_LIMIT
    }

    /// Page `p` takes a `w` by `h` texture now: it has node room and its
    /// allocator holds a free rectangle that large.
    pub open spec fn can_place(self, p: int, w: int, h: int) -> bool {
        self.has_node_room(p) && allocator_fits(self.allocator(p), w, h)
    }

    /// The records match the allocators: every texture's rectangle is what
    /// its page's allocator handed out under its id, and nothing else is
    /// handed out; names are distinct and below the next serial number; the
    /// usage is the total area modulo the word size.
    pub closed spec fn wf(self) -> bool {
        &&& self.wf_core()
        &&& self.nodes_ok()
    }

    /// Page `p` holds a texture.
    pub open spec fn page_used(self, p: int) -> bool {
        page_used_in(self.entries(), p)
    }

    /// Some page holds no texture.
    pub open spec fn has_empty_page(self) -> bool {
        empty_page_in(self.entries(), self.pages())
    }

    /// Each allocator's node table is within its recorded bound, which is
    /// within the limit, and a page without textures has a fresh allocator.
    closed spec fn nodes_ok(self) -> bool {
        &&& self.node_bounds@.len() == self.allocators@.len()
        &&& forall|p: int|
            0 <= p < self.allocators@.len() ==> allocator_nodes(#[trigger] self.allocators@[p])
                <= self.node_bounds@[p] <= NODE_LIMIT
        &&& forall|p: int|
            0 <= p < self.allocators@.len() && !self.page_used(p) ==> #[trigger] self.node_bounds@[p]
                == 1
    }

    closed spec fn wf_core(self) -> bool {
        &&& 0 < self.width <= i32::MAX
        &&& 0 < self.height <= i32::MAX
        &&& self.width * self.height * self.allocators@.len() <= usize::MAX
        &&& self.allocators@.len() <= u32::MAX
        &&& forall|p: int|
            0 <= p < self.allocators@.len() ==> allocator_extent(#[trigger] self.allocators@[p])
                == (self.width as int, self.height as int)
        &&& forall|i: int|
            0 <= i < self.entries@.len() ==> {
                let e = #[trigger] self.entries@[i];
                &&& e.location.page_index < self.allocators@.len()
                &&& self.live(e.location.page_index as int).contains_key(e.alloc_id)
                &&& self.live(e.location.page_index as int)[e.alloc_id] == e.location.rect()
                &&& e.id.serial < self.next_serial
                &&& 0 <= e.location.min_x < e.location.max_x <= self.width
                &&& 0 <= e.location.min_y < e.location.max_y <= self.height
            }
        &&& forall|i: int, j: int|
            0 <= i < j < self.entries@.len() ==> {
                &&& (#[trigger] self.entries@[i]).id != (#[trigger] self.entries@[j]).id
                &&& !(self.entries@[i].location.page_index == self.entries@[j].location.page_index
                    && self.entries@[i].alloc_id == self.entries@[j].alloc_id)
                &&& self.entries@[i].location.page_index == self.entries@[j].location.page_index
                    ==> rects_apart(
                    self.entries@[i].location.rect(),
                    self.entries@[j].location.rect(),
                )
            }
        &&& forall|p: int, k: u32|
            0 <= p < self.allocators@.len() && #[trigger] self.live(p).contains_key(k) ==> exists|
                i: int,
            |
                0 <= i < self.entries@.len() && (#[trigger] self.entries@[i]).location.page_index
                    == p && self.entries@[i].alloc_id == k
        &&& self.usage as int == total_area(self.entries@) % (usize::MAX as int + 1)
    }

    /// An atlas of `pages` empty pages of `width` by `height` pixels.
    pub fn new(width: u32, height: u32, pages: u32) -> (r: Self)
        requires
            0 < width <= i32::MAX,
            0 < height <= i32::MAX,
            width * height * pages <= usize::MAX,
        ensures
            r.wf(),
            r.spec_width() == width,
            r.spec_height() == height,
            r.pages() == pages,
            r.entries() == Seq::<TextureEntry>::empty(),
            r.spec_usage() == 0,
            r.serial() == 0,
    {
        let mut allocators: Vec<AtlasAllocator> = Vec::new();
        let mut node_bounds: Vec<u32> = Vec::new();
        let mut i: u32 = 0;
        while i < pages
            invariant
                i <= pages,
                0 < width <= i32::MAX,
                0 < height <= i32::MAX,
                allocators@.len() == i,
                node_bounds@.len() == i,
                forall|p: int|
                    0 <= p < i ==> allocator_extent(#[trigger] allocators@[p]) == (
                        width as int,
                        height as int,
                    ) && live_rects(allocators@[p]).dom().is_empty() && allocator_nodes(
                        allocators@[p],
                    ) == 1 && node_bounds@[p] == 1,
            decreases pages - i,
        {
            allocators.push(new_allocator(width as i32, height as i32));
            node_bounds.push(1);
            i = i + 1;
        }
        let r = AtlasState {
            width,
            height,
            allocators,
            node_bounds,
            entries: Vec::new(),
            usage: 0,
            next_serial: 0,
        };
        proof {
            assert forall|p: int| !#[trigger] r.page_used(p) by {
                assert(r.entries().len() == 0);
            }
            assert forall|p: int| 0 <= p < r.allocators@.len() implies allocator_nodes(
                #[trigger] r.allocators@[p],
            ) <= r.node_bounds@[p] <= NODE_LIMIT by {
                assert(allocator_extent(r.allocators@[p]) == (width as int, height as int));
            }
            assert forall|p: int| 0 <= p < r.allocators@.len() implies #[trigger] r.node_bounds@[p] == 1 by {
                assert(allocator_extent(r.allocators@[p]) == (width as int, height as int));
            }
            assert(r.nodes_ok());
            assert(total_area(r.entries@) == 0);
            assert forall|p: int, k: u32|
                0 <= p < r.allocators@.len() && #[trigger] r.live(p).contains_key(k) implies false by {
                assert(live_rects(r.allocators@[p]).dom().contains(k));
            }
        }
        r
    }

    pub fn width(&self) -> (r: u32)
        ensures
            r == self.spec_width(),
    {
        self.width
    }

    pub fn height(&self) -> (r: u32)
        ensures
            r == self.spec_height(),
    {
        self.height
    }

    /// Number of pages.
    pub fn page_count(&self) -> (r: usize)
        ensures
            r == self.pages(),
    {
        self.allocators.len()
    }

    /// Pixels over all pages.
    pub fn capacity(&self) -> (r: usize)
        requires
            self.wf(),
        ensures
            r == self.spec_width() * self.spec_height() * self.pages(),
    {
        let pages = self.allocators.len();
        if pages == 0 {
            assert(self.width * self.height * 0 == 0) by (nonlinear_arith);
            return 0;
        }
        proof {
            assert(self.width * self.height <= self.width * self.height * pages) by (nonlinear_arith)
                requires
                    pages >= 1,
            ;
        }
        (self.width as usize) * (self.height as usize) * pages
    }

    /// Pixels taken by the textures, modulo the word size.
    pub fn usage(&self) -> (r: usize)
        ensures
            r == self.spec_usage(),
    {
        self.usage
    }

    /// Whether the atlas can still name a new texture.
    pub fn has_ids_left(&self) -> (r: bool)
        ensures
            r == (self.serial() < u64::MAX),
    {
        self.next_serial < u64::MAX
    }

    /// Number of textures placed.
    pub fn allocation_count(&self) -> (r: usize)
        ensures
            r == self.entries().len(),
    {
        self.entries.len()
    }

    /// The placed textures, in the order they were placed.
    pub fn entry_list(&self) -> (r: &Vec<TextureEntry>)
        ensures
            r@ == self.entries(),
    {
        &self.entries
    }

    /// Where the texture `id` sits, if it is placed.
    pub fn get_location(&self, id: TextureId) -> (r: Option<TextureLocation>)
        requires
            self.wf(),
        ensures
            r is Some <==> entry_index(self.entries(), id) is Some,
            r matches Some(l) ==> l == self.entries()[entry_index(self.entries(), id)->0].location,
    {
        match self.find(id) {
            Some(i) => Some(self.entries[i].location),
            None => None,
        }
    }

    fn find(&self, id: TextureId) -> (r: Option<usize>)
        requires
            self.wf(),
        ensures
            r is Some <==> entry_index(self.entries(), id) is Some,
            r matches Some(i) ==> i == entry_index(self.entries(), id)->0 && i < self.entries().len(),
    {
        let mut i: usize = 0;
        while i < self.entries.len()
            invariant
                self.wf(),
                i <= self.entries@.len(),
                forall|j: int| 0 <= j < i ==> (#[trigger] self.entries@[j]).id != id,
            decreases self.entries@.len() - i,
        {
            if self.entries[i].id == id {
                proof {
                    let k = choose|k: int| 0 <= k < self.entries@.len() && self.entries@[k].id == id;
                    if k != i {
                        if k < i {
                        } else {
                            assert(self.entries@[i as int].id != self.entries@[k].id);
                        }
                    }
                }
                return Some(i);
            }
            i = i + 1;
        }
        None
    }

    /// The largest width and the largest height among the placed textures.
    pub fn max_allocation_size(&self) -> (r: [u32; 2])
        requires
            self.wf(),
        ensures
            forall|i: int|
                0 <= i < self.entries().len() ==> {
                    let l = (#[trigger] self.entries()[i]).location;
                    &&& l.max_x - l.min_x <= r[0]
                    &&& l.max_y - l.min_y <= r[1]
                },
            r[0] == 0 || exists|i: int|
                0 <= i < self.entries().len() && r[0] == (#[trigger] self.entries()[i]).location.max_x
                    - self.entries()[i].location.min_x,
            r[1] == 0 || exists|i: int|
                0 <= i < self.entries().len() && r[1] == (#[trigger] self.entries()[i]).location.max_y
                    - self.entries()[i].location.min_y,
    {
        let mut w: u32 = 0;
        let mut h: u32 = 0;
        let mut i: usize = 0;
        while i < self.entries.len()
            invariant
                self.wf(),
                i <= self.entries@.len(),
                forall|j: int|
                    0 <= j < i ==> {
                        let l = (#[trigger] self.entries@[j]).location;
                        &&& l.max_x - l.min_x <= w
                        &&& l.max_y - l.min_y <= h
                    },
                w == 0 || exists|j: int|
                    0 <= j < i && w == (#[trigger] self.entries@[j]).location.max_x
                        - self.entries@[j].location.min_x,
                h == 0 || exists|j: int|
                    0 <= j < i && h == (#[trigger] self.entries@[j]).location.max_y
                        - self.entries@[j].location.min_y,
            decreases self.entries@.len() - i,
        {
            let size = self.entries[i].location.size();
            if size[0] > w {
                w = size[0];
            }
            if size[1] > h {
                h = size[1];
            }
            i = i + 1;
        }
        let r = [w, h];
        proof {
            broadcast use vstd::array::group_array_axioms;

            assert(r[0] == w && r[1] == h);
            if w != 0 {
                let j = choose|j: int|
                    0 <= j < i && w == (#[trigger] self.entries@[j]).location.max_x
                        - self.entries@[j].location.min_x;
                assert(self.entries()[j] == self.entries@[j]);
            }
            if h != 0 {
                let j = choose|j: int|
                    0 <= j < i && h == (#[trigger] self.entries@[j]).location.max_y
                        - self.entries@[j].location.min_y;
                assert(self.entries()[j] == self.entries@[j]);
            }
        }
        r
    }

    /// Places a texture named `id` of `size` pixels on the first page that
    /// can take it (`can_place`); `None` when no page can.
    fn place(&mut self, size: [u32; 2], id: TextureId) -> (r: Option<TextureEntry>)
        requires
            old(self).wf(),
            0 < size[0] <= old(self).spec_width(),
            0 < size[1] <= old(self).spec_height(),
            id.serial < old(self).serial(),
            forall|i: int| 0 <= i < old(self).entries().len() ==> (#[trigger] old(self).entries()[i]).id != id,
        ensures
            final(self).wf(),
            final(self).spec_width() == old(self).spec_width(),
            final(self).spec_height() == old(self).spec_height(),
            final(self).pages() == old(self).pages(),
            final(self).serial() == old(self).serial(),
            r matches Some(e) ==> {
                &&& final(self).entries() == old(self).entries().push(e)
                &&& e.id == id
                &&& e.location.page_index < old(self).pages()
                &&& e.location.max_x - e.location.min_x == size[0]
                &&& e.location.max_y - e.location.min_y == size[1]
                &&& 0 <= e.location.min_x && e.location.max_x <= old(self).spec_width()
                &&& 0 <= e.location.min_y && e.location.max_y <= old(self).spec_height()
                &&& final(self).spec_usage() as int == (total_area(old(self).entries())
                    + size[0] * size[1]) % (usize::MAX as int + 1)
            },
            r matches Some(e) ==> {
                &&& old(self).can_place(e.location.page_index as int, size[0] as int, size[1] as int)
                &&& forall|q: int|
                    0 <= q < e.location.page_index ==> !#[trigger] old(self).can_place(
                        q,
                        size[0] as int,
                        size[1] as int,
                    )
            },
            r is None ==> {
                &&& final(self).entries() == old(self).entries()
                &&& final(self).spec_usage() == old(self).spec_usage()
                &&& !old(self).has_empty_page()
                &&& forall|q: int, w: int, h: int|
                    0 <= q < old(self).pages() ==> (#[trigger] final(self).can_place(q, w, h)
                        <==> old(self).can_place(q, w, h))
                &&& forall|q: int|
                    0 <= q < old(self).pages() ==> !#[trigger] old(self).can_place(
                        q,
                        size[0] as int,
                        size[1] as int,
                    )
            },
    {
        let w = size[0] as i32;
        let h = size[1] as i32;
        let ghost old_allocators = self.allocators@;
        proof {
            assert forall|i: int| 0 <= i < self.entries@.len() implies (
            #[trigger] self.entries@[i]).id != id by {
                assert(old(self).entries()[i] == self.entries@[i]);
            }
        }
        let mut p: usize = 0;
        while p < self.allocators.len()
            invariant
                self.wf(),
                self.width == old(self).width,
                self.height == old(self).height,
                self.entries == old(self).entries,
                self.usage == old(self).usage,
                self.next_serial == old(self).next_serial,
                id.serial < self.next_serial,
                forall|i: int| 0 <= i < self.entries@.len() ==> (#[trigger] self.entries@[i]).id != id,
                self.allocators@.len() == old_allocators.len(),
                old_allocators == old(self).allocators@,
                self.node_bounds == old(self).node_bounds,
                forall|q: int|
                    0 <= q < old_allocators.len() ==> live_rects(#[trigger] self.allocators@[q])
                        == live_rects(old_allocators[q]),
                0 < w <= self.width,
                0 < h <= self.height,
                w == size[0],
                h == size[1],
                p <= self.allocators@.len(),
                forall|q: int| 0 <= q < p ==> #[trigger] old(self).page_used(q),
                forall|q: int| p <= q < old_allocators.len() ==> #[trigger] self.allocators@[q] == old_allocators[q],
                forall|q: int| 0 <= q < p ==> !#[trigger] old(self).can_place(q, w as int, h as int),
                forall|q: int, w2: int, h2: int|
                    0 <= q < p ==> (#[trigger] allocator_fits(self.allocators@[q], w2, h2)
                        == allocator_fits(old_allocators[q], w2, h2)),
            decreases self.allocators@.len() - p,
        {
            let ghost before = self.allocators@;
            let ghost pre = *self;
            if self.node_bounds[p] > NODE_LIMIT - 4 {
                proof {
                    assert(self.page_used(p as int));
                    assert(self.entries() == old(self).entries());
                    assert(!old(self).has_node_room(p as int));
                }
                p = p + 1;
                continue;
            }
            assert(!self.page_used(p as int) ==> live_rects(self.allocators@[p as int]).dom().is_empty()) by {
                if !self.page_used(p as int) {
                    assert forall|k: u32| !live_rects(self.allocators@[p as int]).dom().contains(k) by {
                        if live_rects(self.allocators@[p as int]).dom().contains(k) {
                            assert(self.live(p as int).contains_key(k));
                        }
                    }
                    assert(live_rects(self.allocators@[p as int]).dom() =~= Set::<u32>::empty());
                }
            }
            let found = allocate_rect(&mut self.allocators[p], w, h);
            match found {
                Some((alloc_id, x, y)) => {
                    let location = TextureLocation {
                        page_index: p as u32,
                        min_x: x,
                        min_y: y,
                        max_x: x + w,
                        max_y: y + h,
                    };
                    let entry = TextureEntry { id, location, alloc_id };
                    proof {
                        assert(size[0] * size[1] <= self.width * self.height * self.allocators@.len())
                            by (nonlinear_arith)
                            requires
                                size[0] <= self.width,
                                size[1] <= self.height,
                                p < self.allocators@.len(),
                        ;
                    }
                    let area = (size[0] as usize) * (size[1] as usize);
                    proof {
                        lemma_total_area_nonneg(self.entries@);
                        lemma_wrap_add(
                            total_area(self.entries@),
                            area as int,
                            usize::MAX as int + 1,
                        );
                    }
                    self.usage = self.usage.wrapping_add(area);
                    let ghost old_entries = self.entries@;
                    self.entries.push(entry);
                    let nb = self.node_bounds[p] + 4;
                    self.node_bounds.set(p, nb);
                    proof {
                        let pp = p as int;
                        assert(self.entries()[old_entries.len() as int] == entry);
                        assert(self.page_used(pp));
                        assert forall|q: int|
                            0 <= q < self.allocators@.len() implies allocator_nodes(
                                #[trigger] self.allocators@[q],
                            ) <= self.node_bounds@[q] <= NODE_LIMIT by {
                            if q != pp {
                                assert(self.allocators@[q] == before[q]);
                            }
                        }
                        assert forall|q: int|
                            0 <= q < self.allocators@.len() && !self.page_used(q) implies #[trigger] self.node_bounds@[q]
                                == 1 by {
                            if q != pp && pre.page_used(q) {
                                let i = choose|i: int|
                                    0 <= i < pre.entries().len() && (#[trigger] pre.entries()[i]).location.page_index
                                        == q;
                                assert(self.entries@[i] == old_entries[i]);
                                assert(self.page_used(q));
                            }
                        }
                    }
                    proof {
                        assert(old(self).allocator(p as int) == before[p as int]);
                        assert(old(self).has_node_room(p as int));
                        assert(self.entries@.drop_last() =~= old_entries);
                        assert(location.spec_area() == size[0] * size[1]);
                        let pp = p as int;
                        assert(self.live(pp) == live_rects(before[pp]).insert(alloc_id, location.rect()));
                        assert forall|q: int|
                            0 <= q < self.allocators@.len() && q != pp implies #[trigger] self.live(q)
                            == live_rects(before[q]) by {}
                        assert forall|i: int| 0 <= i < self.entries@.len() implies {
                            let e = #[trigger] self.entries@[i];
                            &&& e.location.page_index < self.allocators@.len()
                            &&& self.live(e.location.page_index as int).contains_key(e.alloc_id)
                            &&& self.live(e.location.page_index as int)[e.alloc_id]
                                == e.location.rect()
                            &&& e.id.serial < self.next_serial
                            &&& 0 <= e.location.min_x < e.location.max_x <= self.width
                            &&& 0 <= e.location.min_y < e.location.max_y <= self.height
                        } by {
                            if i < old_entries.len() {
                                assert(old_entries[i] == self.entries@[i]);
                                let e = old_entries[i];
                                let ep = e.location.page_index as int;
                                assert(pre.entries@[i] == e);
                                assert(pre.live(ep).contains_key(e.alloc_id));
                                assert(live_rects(before[ep]).contains_key(e.alloc_id));
                                if ep == pp {
                                    assert(e.alloc_id != alloc_id);
                                }
                            } else {
                                assert(self.entries@[i] == entry);
                            }
                        }
                        assert forall|i: int, j: int| 0 <= i < j < self.entries@.len() implies {
                            &&& (#[trigger] self.entries@[i]).id != (#[trigger] self.entries@[j]).id
                            &&& !(self.entries@[i].location.page_index
                                == self.entries@[j].location.page_index && self.entries@[i].alloc_id
                                == self.entries@[j].alloc_id)
                        } by {
                            if j == old_entries.len() {
                                let e = old_entries[i];
                                assert(e == self.entries@[i]);
                                assert(pre.entries@[i] == e);
                                let ep = e.location.page_index as int;
                                assert(pre.live(ep).contains_key(e.alloc_id));
                                assert(live_rects(before[ep]).contains_key(e.alloc_id));
                            } else {
                                assert(old_entries[i] == self.entries@[i]);
                                assert(old_entries[j] == self.entries@[j]);
                                assert(pre.entries@[i] == old_entries[i]);
                                assert(pre.entries@[j] == old_entries[j]);
                            }
                        }
                        assert forall|q: int, k: u32|
                            0 <= q < self.allocators@.len() && #[trigger] self.live(q).contains_key(
                                k,
                            ) implies exists|i: int|
                            0 <= i < self.entries@.len()
                                && (#[trigger] self.entries@[i]).location.page_index == q
                                && self.entries@[i].alloc_id == k by {
                            if q == pp && k == alloc_id {
                                assert(self.entries@[old_entries.len() as int] == entry);
                            } else {
                                assert(live_rects(before[q]).contains_key(k));
                                assert(pre.live(q).contains_key(k));
                                let i = choose|i: int|
                                    0 <= i < old_entries.len()
                                        && (#[trigger] old_entries[i]).location.page_index == q
                                        && old_entries[i].alloc_id == k;
                                assert(self.entries@[i] == old_entries[i]);
                            }
                        }
                    }
                    return Some(entry);
                },
                None => {
                    proof {
                        assert(old(self).allocator(p as int) == before[p as int]);
                        assert(!old(self).can_place(p as int, w as int, h as int));
                        assert forall|q: int| p < q < old_allocators.len() implies #[trigger] self.allocators@[q]
                            == old_allocators[q] by {
                            assert(self.allocators@[q] == before[q]);
                        }
                        assert forall|q: int, w2: int, h2: int|
                            0 <= q < p + 1 implies (#[trigger] allocator_fits(self.allocators@[q], w2, h2)
                            == allocator_fits(old_allocators[q], w2, h2)) by {
                            if q < p {
                                assert(self.allocators@[q] == before[q]);
                            } else {
                                assert(allocator_fits(self.allocators@[q], w2, h2) == allocator_fits(
                                    before[q],
                                    w2,
                                    h2,
                                ));
                            }
                        }
                        assert forall|q: int| 0 <= q < self.allocators@.len() implies #[trigger] self.live(q)
                            == pre.live(q) && allocator_extent(self.allocators@[q])
                            == allocator_extent(pre.allocators@[q]) && allocator_nodes(self.allocators@[q])
                            == allocator_nodes(pre.allocators@[q]) by {}
                        assert(self.page_used(p as int));
                        assert(self.entries() == old(self).entries());
                        assert forall|q: int, k: u32|
                            0 <= q < self.allocators@.len() && #[trigger] self.live(q).contains_key(
                                k,
                            ) implies exists|i: int|
                            0 <= i < self.entries@.len()
                                && (#[trigger] self.entries@[i]).location.page_index == q
                                && self.entries@[i].alloc_id == k by {
                            assert(pre.live(q).contains_key(k));
                        }
                        assert forall|i: int| 0 <= i < self.entries@.len() implies {
                            let e = #[trigger] self.entries@[i];
                            &&& self.live(e.location.page_index as int).contains_key(e.alloc_id)
                            &&& self.live(e.location.page_index as int)[e.alloc_id]
                                == e.location.rect()
                        } by {
                            assert(pre.entries@[i] == self.entries@[i]);
                        }
                    }
                },
            }
            p = p + 1;
        }
        proof {
            assert forall|q: int| 0 <= q < old(self).pages() implies #[trigger] page_used_in(
                old(self).entries(),
                q,
            ) by {
                assert(old(self).page_used(q));
            }
            assert forall|q: int, w2: int, h2: int| 0 <= q < old(self).pages() implies (
            #[trigger] self.can_place(q, w2, h2) <==> old(self).can_place(q, w2, h2)) by {
                assert(allocator_fits(self.allocators@[q], w2, h2) == allocator_fits(old_allocators[q], w2, h2));
            }
        }
        None
    }

    /// Places a texture of `size` pixels on the first page whose allocator
    /// takes it, under a fresh name. A page is passed over once its recorded
    /// node bound leaves no room for another allocation (see
    /// `has_node_room`); it takes textures again after it has been emptied.
    pub fn allocate(&mut self, size: [u32; 2]) -> (r: Result<TextureEntry, TextureAtlasError>)
        requires
            old(self).wf(),
            old(self).serial() < u64::MAX,
        ensures
            final(self).wf(),
            final(self).spec_width() == old(self).spec_width(),
            final(self).spec_height() == old(self).spec_height(),
            final(self).pages() == old(self).pages(),
            size[0] == 0 || size[1] == 0 || size[0] > old(self).spec_width() || size[1] > old(
                self,
            ).spec_height() ==> r is Err,
            old(self).has_empty_page() && 0 < size[0] <= old(self).spec_width() && 0 < size[1]
                <= old(self).spec_height() ==> r is Ok,
            r is Err ==> size[0] == 0 || size[1] == 0 || size[0] > old(self).spec_width() || size[1]
                > old(self).spec_height() || forall|q: int|
                0 <= q < old(self).pages() ==> !#[trigger] old(self).can_place(
                    q,
                    size[0] as int,
                    size[1] as int,
                ),
            r is Err ==> forall|q: int, w: int, h: int|
                0 <= q < old(self).pages() ==> (#[trigger] final(self).can_place(q, w, h)
                    <==> old(self).can_place(q, w, h)),
            r matches Ok(e) ==> {
                &&& old(self).can_place(e.location.page_index as int, size[0] as int, size[1] as int)
                &&& forall|q: int|
                    0 <= q < e.location.page_index ==> !#[trigger] old(self).can_place(
                        q,
                        size[0] as int,
                        size[1] as int,
                    )
                &&& final(self).entries() == old(self).entries().push(e)
                &&& e.id.serial == old(self).serial()
                &&& final(self).serial() == old(self).serial() + 1
                &&& e.location.page_index < old(self).pages()
                &&& e.location.max_x - e.location.min_x == size[0]
                &&& e.location.max_y - e.location.min_y == size[1]
                &&& 0 <= e.location.min_x && e.location.max_x <= old(self).spec_width()
                &&& 0 <= e.location.min_y && e.location.max_y <= old(self).spec_height()
                &&& final(self).spec_usage() as int == (total_area(old(self).entries())
                    + size[0] * size[1]) % (usize::MAX as int + 1)
            },
            r matches Err(err) ==> {
                &&& err == TextureAtlasError::AllocationFailedNotEnoughSpace
                &&& final(self).entries() == old(self).entries()
                &&& final(self).spec_usage() == old(self).spec_usage()
                &&& final(self).serial() == old(self).serial()
            },
    {
        if size[0] == 0 || size[1] == 0 || size[0] > self.width || size[1] > self.height {
            return Err(TextureAtlasError::AllocationFailedNotEnoughSpace);
        }
        let id = TextureId { texture_uuid: new_uuid(), serial: self.next_serial };
        self.next_serial = self.next_serial + 1;
        proof {
            assert forall|i: int| 0 <= i < self.entries@.len() implies (
            #[trigger] self.entries@[i]).id != id && self.entries@[i].id.serial < self.next_serial by {
                assert(old(self).entries@[i].id.serial < id.serial);
            }
            lemma_wf_other_serial(*old(self), *self);
            assert forall|q: int, w: int, h: int| #[trigger] self.can_place(q, w, h) == old(self).can_place(q, w, h) by {
                assert(self.allocator(q) == old(self).allocator(q));
                assert(self.has_node_room(q) == old(self).has_node_room(q));
            }
        }
        let ghost bumped = *self;
        match self.place(size, id) {
            Some(e) => {
                proof {
                    assert forall|q: int| 0 <= q < e.location.page_index implies !#[trigger] old(self).can_place(
                        q,
                        size[0] as int,
                        size[1] as int,
                    ) by {
                        assert(!bumped.can_place(q, size[0] as int, size[1] as int));
                    }
                }
                Ok(e)
            },
            None => {
                let ghost mid = *self;
                self.next_serial = self.next_serial - 1;
                proof {
                    assert forall|i: int| 0 <= i < self.entries@.len() implies (
                    #[trigger] self.entries@[i]).id.serial < self.next_serial by {
                        assert(old(self).entries@[i] == self.entries@[i]);
                    }
                    lemma_wf_other_serial(mid, *self);
                    assert forall|q: int, w: int, h: int| #[trigger] self.can_place(q, w, h) == mid.can_place(q, w, h) by {
                        assert(self.allocator(q) == mid.allocator(q));
                        assert(self.has_node_room(q) == mid.has_node_room(q));
                    }
                    assert forall|q: int| 0 <= q < old(self).pages() implies !#[trigger] old(self).can_place(
                        q,
                        size[0] as int,
                        size[1] as int,
                    ) by {
                        assert(!bumped.can_place(q, size[0] as int, size[1] as int));
                    }
                }
                Err(TextureAtlasError::AllocationFailedNotEnoughSpace)
            },
        }
    }

    /// Adds one empty page.
    fn add_page(&mut self)
        requires
            old(self).wf(),
            old(self).pages() < u32::MAX,
            old(self).spec_width() * old(self).spec_height() * (old(self).pages() + 1) <= usize::MAX,
        ensures
            final(self).wf(),
            final(self).spec_width() == old(self).spec_width(),
            final(self).spec_height() == old(self).spec_height(),
            final(self).pages() == old(self).pages() + 1,
            final(self).entries() == old(self).entries(),
            final(self).spec_usage() == old(self).spec_usage(),
            final(self).serial() == old(self).serial(),
            forall|q: int, w: int, h: int|
                0 <= q < old(self).pages() ==> (#[trigger] final(self).can_place(q, w, h)
                    <==> old(self).can_place(q, w, h)),
            !final(self).page_used(old(self).pages() as int),
    {
        let fresh = new_allocator(self.width as i32, self.height as i32);
        let ghost pre = *self;
        self.allocators.push(fresh);
        self.node_bounds.push(1);
        proof {
            let last = pre.allocators@.len() as int;
            assert(self.entries() == pre.entries());
            assert forall|q: int| 0 <= q < last implies #[trigger] self.allocators@[q] == pre.allocators@[q]
                && self.node_bounds@[q] == pre.node_bounds@[q] by {}
            assert forall|q: int| 0 <= q < self.allocators@.len() implies allocator_extent(
                #[trigger] self.allocators@[q],
            ) == (self.width as int, self.height as int) by {
                if q < last {
                    assert(allocator_extent(pre.allocators@[q]) == (pre.width as int, pre.height as int));
                }
            }
            assert forall|i: int| 0 <= i < self.entries@.len() implies {
                let e = #[trigger] self.entries@[i];
                &&& self.live(e.location.page_index as int).contains_key(e.alloc_id)
                &&& self.live(e.location.page_index as int)[e.alloc_id] == e.location.rect()
            } by {
                assert(pre.entries@[i] == self.entries@[i]);
            }
            assert forall|q: int, k: u32|
                0 <= q < self.allocators@.len() && #[trigger] self.live(q).contains_key(k) implies exists|
                i: int,
            |
                0 <= i < self.entries@.len() && (#[trigger] self.entries@[i]).location.page_index == q
                    && self.entries@[i].alloc_id == k by {
                if q == last {
                    assert(live_rects(fresh).dom().contains(k));
                } else {
                    assert(pre.live(q).contains_key(k));
                }
            }
            assert(self.wf_core());
            assert forall|q: int|
                0 <= q < self.allocators@.len() implies allocator_nodes(#[trigger] self.allocators@[q])
                <= self.node_bounds@[q] <= NODE_LIMIT by {
                if q < last {
                    assert(allocator_nodes(pre.allocators@[q]) <= pre.node_bounds@[q] <= NODE_LIMIT);
                }
            }
            assert forall|q: int|
                0 <= q < self.allocators@.len() && !self.page_used(q) implies #[trigger] self.node_bounds@[q]
                    == 1 by {
                if q < last {
                    assert(!pre.page_used(q));
                    assert(pre.node_bounds@[q] == 1);
                }
            }
        }
    }

    /// Places a texture of `size` pixels, adding a page when no page has
    /// room; a size larger than a page is refused.
    pub fn allocate_growing(&mut self, size: [u32; 2]) -> (r: Result<TextureEntry, TextureAtlasError>)
        requires
            old(self).wf(),
            old(self).serial() < u64::MAX,
            (0 < size[0] && 0 < size[1]) || size[0] > old(self).spec_width() || size[1] > old(
                self,
            ).spec_height(),
            old(self).pages() < u32::MAX,
            old(self).spec_width() * old(self).spec_height() * (old(self).pages() + 1) <= usize::MAX,
        ensures
            final(self).wf(),
            final(self).spec_width() == old(self).spec_width(),
            final(self).spec_height() == old(self).spec_height(),
            size[0] > old(self).spec_width() || size[1] > old(self).spec_height() ==> {
                &&& r == Err::<TextureEntry, TextureAtlasError>(
                    TextureAtlasError::AllocationFailedTooLarge,
                )
                &&& *final(self) == *old(self)
            },
            size[0] <= old(self).spec_width() && size[1] <= old(self).spec_height() ==> r is Ok,
            r matches Ok(e) ==> {
                &&& final(self).entries() == old(self).entries().push(e)
                &&& e.id.serial == old(self).serial()
                &&& final(self).serial() == old(self).serial() + 1
                &&& e.location.max_x - e.location.min_x == size[0]
                &&& e.location.max_y - e.location.min_y == size[1]
                &&& e.location.page_index < final(self).pages()
                &&& final(self).pages() == old(self).pages() || (final(self).pages()
                    == old(self).pages() + 1 && !old(self).has_empty_page())
                &&& final(self).pages() == old(self).pages() ==> {
                    &&& old(self).can_place(e.location.page_index as int, size[0] as int, size[1] as int)
                    &&& forall|q: int|
                        0 <= q < e.location.page_index ==> !#[trigger] old(self).can_place(
                            q,
                            size[0] as int,
                            size[1] as int,
                        )
                }
                &&& final(self).pages() == old(self).pages() + 1 ==> {
                    &&& e.location.page_index == old(self).pages()
                    &&& forall|q: int|
                        0 <= q < old(self).pages() ==> !#[trigger] old(self).can_place(
                            q,
                            size[0] as int,
                            size[1] as int,
                        )
                }
            },
    {
        if size[0] > self.width || size[1] > self.height {
            return Err(TextureAtlasError::AllocationFailedTooLarge);
        }
        match self.allocate(size) {
            Ok(e) => Ok(e),
            Err(_) => {
                let ghost failed = *self;
                self.add_page();
                proof {
                    let last = self.pages() - 1;
                    assert(!page_used_in(self.entries(), last));
                }
                let r = self.allocate(size);
                proof {
                    if let Ok(e) = r {
                        let pg = e.location.page_index as int;
                        if pg < old(self).pages() {
                            assert(failed.can_place(pg, size[0] as int, size[1] as int));
                            assert(false);
                        }
                    }
                }
                r
            },
        }
    }

    /// Takes the texture `id` off its page and out of the usage.
    #[verifier::rlimit(40)]
    pub fn deallocate(&mut self, id: TextureId) -> (r: Result<(), DeallocationErrorTextureNotFound>)
        requires
            old(self).wf(),
        ensures
            final(self).wf(),
            final(self).spec_width() == old(self).spec_width(),
            final(self).spec_height() == old(self).spec_height(),
            final(self).pages() == old(self).pages(),
            final(self).serial() == old(self).serial(),
            r is Ok <==> entry_index(old(self).entries(), id) is Some,
            r is Err ==> *final(self) == *old(self),
            r is Ok ==> {
                let i = entry_index(old(self).entries(), id)->0;
                &&& final(self).entries() == old(self).entries().remove(i)
                &&& final(self).spec_usage() as int == (total_area(old(self).entries())
                    - old(self).entries()[i].location.spec_area()) % (usize::MAX as int + 1)
            },
    {
        let i = match self.find(id) {
            Some(i) => i,
            None => {
                return Err(DeallocationErrorTextureNotFound);
            },
        };
        let entry = self.entries[i];
        let page = entry.location.page_index as usize;
        let ghost before = self.allocators@;
        let ghost old_entries = self.entries@;
        let ghost pre = *self;
        deallocate_rect(&mut self.allocators[page], entry.alloc_id);
        let size = entry.location.size();
        proof {
            assert(size[0] * size[1] <= self.width * self.height * self.allocators@.len())
                by (nonlinear_arith)
                requires
                    size[0] <= self.width,
                    size[1] <= self.height,
                    page < self.allocators@.len(),
            ;
        }
        let area = (size[0] as usize) * (size[1] as usize);
        proof {
            assert(entry.location.spec_area() == size[0] * size[1]);
            lemma_total_area_remove(old_entries, i as int);
            lemma_total_area_nonneg(old_entries.remove(i as int));
            lemma_total_area_nonneg(old_entries);
            lemma_wrap_sub(total_area(old_entries), area as int, usize::MAX as int + 1);
        }
        self.usage = self.usage.wrapping_sub(area);
        self.entries.remove(i);
        proof {
            let pp = page as int;
            assert(self.entries@ == old_entries.remove(i as int));
            assert forall|q: int|
                0 <= q < self.allocators@.len() && q != pp implies #[trigger] self.live(q)
                == live_rects(before[q]) by {}
            assert forall|k: int| 0 <= k < self.entries@.len() implies {
                let e = #[trigger] self.entries@[k];
                &&& e.location.page_index < self.allocators@.len()
                &&& self.live(e.location.page_index as int).contains_key(e.alloc_id)
                &&& self.live(e.location.page_index as int)[e.alloc_id] == e.location.rect()
                &&& e.id.serial < self.next_serial
                &&& 0 <= e.location.min_x < e.location.max_x <= self.width
                &&& 0 <= e.location.min_y < e.location.max_y <= self.height
            } by {
                let ok = if k < i { k } else { k + 1 };
                assert(self.entries@[k] == old_entries[ok]);
                assert(ok != i);
            }
            assert forall|a: int, b: int| 0 <= a < b < self.entries@.len() implies {
                &&& (#[trigger] self.entries@[a]).id != (#[trigger] self.entries@[b]).id
                &&& !(self.entries@[a].location.page_index == self.entries@[b].location.page_index
                    && self.entries@[a].alloc_id == self.entries@[b].alloc_id)
            } by {
                let oa = if a < i { a } else { a + 1 };
                let ob = if b < i { b } else { b + 1 };
                assert(self.entries@[a] == old_entries[oa]);
                assert(self.entries@[b] == old_entries[ob]);
            }
            assert forall|q: int, key: u32|
                0 <= q < self.allocators@.len() && #[trigger] self.live(q).contains_key(key) implies exists|
                k: int,
            |
                0 <= k < self.entries@.len() && (#[trigger] self.entries@[k]).location.page_index == q
                    && self.entries@[k].alloc_id == key by {
                assert(live_rects(before[q]).contains_key(key));
                assert(pre.live(q).contains_key(key));
                let j = choose|j: int|
                    0 <= j < old_entries.len() && (#[trigger] old_entries[j]).location.page_index
                        == q && old_entries[j].alloc_id == key;
                assert(j != i);
                let k = if j < i { j } else { j - 1 };
                assert(self.entries@[k] == old_entries[j]);
            }
            assert(self.wf_core());
            assert(allocator_nodes(self.allocators@[pp]) == allocator_nodes(before[pp]));
            assert forall|q: int|
                0 <= q < self.allocators@.len() implies allocator_nodes(#[trigger] self.allocators@[q])
                <= self.node_bounds@[q] <= NODE_LIMIT by {
                assert(allocator_nodes(pre.allocators@[q]) <= pre.node_bounds@[q]);
            }
            assert forall|q: int|
                0 <= q < self.allocators@.len() && q != pp && !self.page_used(q) implies #[trigger] self.node_bounds@[q]
                    == 1 by {
                if pre.page_used(q) {
                    let j = choose|j: int|
                        0 <= j < old_entries.len() && (#[trigger] old_entries[j]).location.page_index == q;
                    let k = if j < i { j } else { j - 1 };
                    assert(j != i);
                    assert(self.entries()[k] == old_entries[j]);
                }
            }
        }
        if !self.page_in_use(page) {
            self.reset_page(page);
        }
        Ok(())
    }

    /// Whether a texture sits on `page`.
    fn page_in_use(&self, page: usize) -> (r: bool)
        ensures
            r == self.page_used(page as int),
    {
        let mut k: usize = 0;
        while k < self.entries.len()
            invariant
                k <= self.entries@.len(),
                forall|j: int| 0 <= j < k ==> (#[trigger] self.entries@[j]).location.page_index != page,
            decreases self.entries@.len() - k,
        {
            if self.entries[k].location.page_index as usize == page {
                proof {
                    assert(self.entries()[k as int].location.page_index == page);
                }
                return true;
            }
            k = k + 1;
        }
        proof {
            assert forall|j: int| 0 <= j < self.entries().len() implies (#[trigger] self.entries()[j]).location.page_index
                != page by {
                assert(self.entries()[j] == self.entries@[j]);
            }
        }
        false
    }

    /// Gives a page that holds no texture a fresh allocator, so that its
    /// node table starts over.
    fn reset_page(&mut self, page: usize)
        requires
            old(self).wf_core(),
            page < old(self).allocators@.len(),
            !old(self).page_used(page as int),
            old(self).node_bounds@.len() == old(self).allocators@.len(),
            forall|p: int|
                0 <= p < old(self).allocators@.len() ==> allocator_nodes(
                    #[trigger] old(self).allocators@[p],
                ) <= old(self).node_bounds@[p] <= NODE_LIMIT,
            forall|p: int|
                0 <= p < old(self).allocators@.len() && p != page && !old(self).page_used(p)
                    ==> #[trigger] old(self).node_bounds@[p] == 1,
        ensures
            final(self).wf(),
            final(self).width == old(self).width,
            final(self).height == old(self).height,
            final(self).entries == old(self).entries,
            final(self).usage == old(self).usage,
            final(self).next_serial == old(self).next_serial,
            final(self).allocators@.len() == old(self).allocators@.len(),
    {
        let fresh = new_allocator(self.width as i32, self.height as i32);
        self.allocators.set(page, fresh);
        self.node_bounds.set(page, 1);
        proof {
            let pp = page as int;
            let pre = *old(self);
            assert(self.entries() == pre.entries());
            assert forall|q: int| 0 <= q < self.allocators@.len() && q != pp implies #[trigger] self.allocators@[q]
                == pre.allocators@[q] by {}
            assert forall|i: int| 0 <= i < self.entries@.len() implies (#[trigger] self.entries@[i]).location.page_index
                != page by {
                assert(self.entries()[i] == self.entries@[i]);
            }
            assert forall|q: int, k: u32|
                0 <= q < self.allocators@.len() && #[trigger] self.live(q).contains_key(k) implies exists|
                i: int,
            |
                0 <= i < self.entries@.len() && (#[trigger] self.entries@[i]).location.page_index == q
                    && self.entries@[i].alloc_id == k by {
                if q == pp {
                    assert(live_rects(fresh).dom().contains(k));
                } else {
                    assert(pre.live(q).contains_key(k));
                }
            }
            assert forall|i: int| 0 <= i < self.entries@.len() implies {
                let e = #[trigger] self.entries@[i];
                &&& self.live(e.location.page_index as int).contains_key(e.alloc_id)
                &&& self.live(e.location.page_index as int)[e.alloc_id] == e.location.rect()
            } by {
                assert(pre.entries@[i] == self.entries@[i]);
            }
            assert forall|q: int| 0 <= q < self.allocators@.len() implies allocator_extent(
                #[trigger] self.allocators@[q],
            ) == (self.width as int, self.height as int) by {}
            assert(self.wf_core());
            assert forall|q: int|
                0 <= q < self.allocators@.len() implies allocator_nodes(#[trigger] self.allocators@[q])
                <= self.node_bounds@[q] <= NODE_LIMIT by {}
            assert forall|q: int|
                0 <= q < self.allocators@.len() && !self.page_used(q) implies #[trigger] self.node_bounds@[q]
                    == 1 by {
                if q != pp {
                    assert(!pre.page_used(q));
                }
            }
        }
    }

    /// Places the extra texture of a resize, if one is asked for and fits
    /// a page, under the next serial number.
    fn place_added(&mut self, new_allocation: Option<[u32; 2]>) -> (r: (Option<TextureEntry>, Ghost<AtlasState>))
        requires
            old(self).wf(),
            old(self).serial() < u64::MAX,
        ensures
            final(self).wf(),
            final(self).spec_width() == old(self).spec_width(),
            final(self).spec_height() == old(self).spec_height(),
            final(self).pages() == old(self).pages(),
            new_allocation is None ==> r.0 is None,
            new_allocation matches Some(size) && 0 < size[0] <= old(self).spec_width() && 0 < size[1]
                <= old(self).spec_height() && old(self).has_empty_page() ==> r.0 is Some,
            r.0 is None ==> {
                &&& final(self).entries() == old(self).entries()
                &&& final(self).serial() == old(self).serial()
            },
            new_allocation is Some && r.0 is None ==> {
                let m = r.1@;
                &&& m.wf()
                &&& m.spec_width() == old(self).spec_width()
                &&& m.spec_height() == old(self).spec_height()
                &&& m.pages() == old(self).pages()
                &&& m.entries() == old(self).entries()
                &&& new_allocation matches Some(size) && refuses(m, size[0] as int, size[1] as int)
            },
            r.0 matches Some(e) ==> {
                &&& final(self).entries() == old(self).entries().push(e)
                &&& final(self).serial() == old(self).serial() + 1
                &&& e.id.serial == old(self).serial()
                &&& e.location.max_x - e.location.min_x == new_allocation->0[0]
                &&& e.location.max_y - e.location.min_y == new_allocation->0[1]
            },
    {
        match new_allocation {
            Some(size) => {
                if size[0] == 0 || size[1] == 0 || size[0] > self.width || size[1] > self.height {
                    proof {
                        assert(refuses(*self, size[0] as int, size[1] as int));
                    }
                    (None, Ghost(*self))
                } else {
                    let id = TextureId { texture_uuid: new_uuid(), serial: self.next_serial };
                    let ghost before_bump = *self;
                    self.next_serial = self.next_serial + 1;
                    proof {
                        assert forall|k: int| 0 <= k < self.entries@.len() implies (
                        #[trigger] self.entries@[k]).id != id && self.entries@[k].id.serial
                            < self.next_serial by {
                            assert(before_bump.entries@[k].id.serial < id.serial);
                        }
                        lemma_wf_other_serial(before_bump, *self);
                    }
                    let ghost bumped = *self;
                    let placed = self.place(size, id);
                    match placed {
                        Some(e) => (Some(e), Ghost(bumped)),
                        None => {
                            let ghost mid = *self;
                            self.next_serial = self.next_serial - 1;
                            proof {
                                assert forall|k: int| 0 <= k < self.entries@.len() implies (
                                #[trigger] self.entries@[k]).id.serial < self.next_serial by {
                                    assert(mid.entries@[k] == self.entries@[k]);
                                    assert(mid.entries@[k].id.serial < mid.next_serial);
                                    assert(mid.entries@[k].id != id);
                                }
                                lemma_wf_other_serial(mid, *self);
                                assert(refuses(bumped, size[0] as int, size[1] as int));
                            }
                            (None, Ghost(bumped))
                        },
                    }
                }
            },
            None => (None, Ghost(*self)),
        }
    }

    /// Rebuilds the atlas with pages of `new_width` by `new_height` pixels,
    /// `new_pages` of them: the textures are placed again one by one in the
    /// order they were placed, then a texture of `new_allocation` pixels if
    /// one is asked for. A texture that finds no room is dropped when
    /// `allow_data_loss` holds; otherwise the resize fails and nothing
    /// changes. Returns the new texture, if any, and for each texture kept
    /// its old and new location, in order.
    #[verifier::rlimit(40)]
    pub fn resize(
        &mut self,
        new_width: u32,
        new_height: u32,
        new_pages: u32,
        allow_data_loss: bool,
        new_allocation: Option<[u32; 2]>,
    ) -> (r: Result<
        (Option<TextureEntry>, Vec<(TextureLocation, TextureLocation)>),
        TextureAtlasError,
    >)
        requires
            old(self).wf(),
            old(self).serial() < u64::MAX,
            0 < new_width <= i32::MAX,
            0 < new_height <= i32::MAX,
            new_width * new_height * new_pages <= usize::MAX,
        ensures
            final(self).wf(),
            r matches Err(err) ==> {
                &&& err == TextureAtlasError::ResizeFailedNotEnoughSpace
                &&& !allow_data_loss
                &&& *final(self) == *old(self)
            },
            !allow_data_loss && (exists|k: int|
                0 <= k < old(self).entries().len() && !fits_page(
                    #[trigger] old(self).entries()[k],
                    new_width as int,
                    new_height as int,
                )) ==> r is Err,
            !allow_data_loss && (new_allocation matches Some(size) && !(0 < size[0] <= new_width
                && 0 < size[1] <= new_height)) ==> r is Err,
            resize_has_room(old(self).entries(), new_width, new_height, new_pages, new_allocation)
                ==> r is Ok,
            r is Err ==> exists|mid: AtlasState, k: int|
                0 <= k <= old(self).entries().len() && #[trigger] holds_resized(
                    mid,
                    old(self).entries().take(k),
                    new_width,
                    new_height,
                    new_pages as nat,
                ) && ({
                    ||| k < old(self).entries().len() && refuses(
                        mid,
                        old(self).entries()[k].location.max_x - old(self).entries()[k].location.min_x,
                        old(self).entries()[k].location.max_y - old(self).entries()[k].location.min_y,
                    )
                    ||| k == old(self).entries().len() && (new_allocation matches Some(size) && refuses(
                        mid,
                        size[0] as int,
                        size[1] as int,
                    ))
                }),
            r matches Ok((added, moves)) ==> {
                let kept = if added is Some {
                    final(self).entries().drop_last()
                } else {
                    final(self).entries()
                };
                &&& final(self).spec_width() == new_width
                &&& final(self).spec_height() == new_height
                &&& final(self).pages() == new_pages
                &&& moved_from(old(self).entries(), kept, moves@)
                &&& !allow_data_loss ==> kept.len() == old(self).entries().len()
                &&& !allow_data_loss ==> forall|k: int|
                    0 <= k < old(self).entries().len() ==> (#[trigger] final(self).entries()[k]).id
                        == old(self).entries()[k].id
                &&& drops_refused(old(self).entries(), kept, new_width, new_height, new_pages as nat)
                &&& (new_allocation matches Some(size) && added is None) ==> exists|m: AtlasState|
                    earlier_state(
                        m,
                        old(self).entries(),
                        kept,
                        old(self).entries().len() as int,
                        new_width,
                        new_height,
                        new_pages as nat,
                    ) && m.entries().len() == kept.len() && refuses(
                        m,
                        new_allocation->0[0] as int,
                        new_allocation->0[1] as int,
                    )
                &&& new_allocation is None ==> added is None
                &&& !allow_data_loss && new_allocation is Some ==> added is Some
                &&& added matches Some(e) ==> {
                    &&& final(self).entries().len() >= 1
                    &&& final(self).entries().last() == e
                    &&& e.id.serial == old(self).serial()
                    &&& e.location.max_x - e.location.min_x == new_allocation->0[0]
                    &&& e.location.max_y - e.location.min_y == new_allocation->0[1]
                }
            },
    {
        let mut next = AtlasState::new(new_width, new_height, new_pages);
        let ghost fresh = next;
        next.next_serial = self.next_serial;
        proof {
            lemma_wf_other_serial(fresh, next);
        }
        let mut moves: Vec<(TextureLocation, TextureLocation)> = Vec::new();
        let mut i: usize = 0;
        let ghost mut trace: Seq<AtlasState> = Seq::empty();
        proof {
            lemma_trace_start(self.entries@, next.entries@, new_width, new_height, new_pages as nat);
        }
        while i < self.entries.len()
            invariant
                self.wf(),
                *self == *old(self),
                trace_ok(trace, self.entries@, next.entries@, i as int, new_width, new_height, new_pages as nat),
                next.wf(),
                next.width == new_width,
                next.height == new_height,
                next.allocators@.len() == new_pages,
                next.next_serial == self.next_serial,
                i <= self.entries@.len(),
                moved_from(self.entries@, next.entries@, moves@),
                forall|k: int|
                    0 <= k < next.entries@.len() ==> exists|j: int|
                        0 <= j < i && (#[trigger] next.entries@[k]).id == self.entries@[j].id,
                !allow_data_loss ==> next.entries@.len() == i && forall|k: int|
                    0 <= k < next.entries@.len() ==> (#[trigger] next.entries@[k]).id
                        == self.entries@[k].id,
                !allow_data_loss ==> forall|k: int|
                    0 <= k < i ==> fits_page(#[trigger] self.entries@[k], new_width as int, new_height as int),
                !allow_data_loss ==> forall|k: int|
                    0 <= k < next.entries@.len() ==> same_texture(#[trigger] next.entries@[k], self.entries@[k]),
                resize_has_room(old(self).entries(), new_width, new_height, new_pages, new_allocation)
                    ==> next.entries@.len() == i,
            decreases self.entries@.len() - i,
        {
            let e = self.entries[i];
            let size = e.location.size();
            let ghost before = next.entries@;
            proof {
                if resize_has_room(old(self).entries(), new_width, new_height, new_pages, new_allocation) {
                    assert(old(self).entries()[i as int] == e);
                    assert(fits_page(e, new_width as int, new_height as int));
                    assert(next.entries().len() == i);
                    lemma_empty_page_exists(next.entries(), next.pages());
                }
            }
            proof {
                assert forall|k: int| 0 <= k < next.entries@.len() implies (
                #[trigger] next.entries@[k]).id != e.id by {
                    let j = choose|j: int|
                        0 <= j < i && (#[trigger] next.entries@[k]).id == self.entries@[j].id;
                    assert(self.entries@[j].id != self.entries@[i as int].id);
                }
            }
            let ghost pre_next = next;
            let placed = if size[0] <= new_width && size[1] <= new_height {
                next.place(size, e.id)
            } else {
                None
            };
            match placed {
                Some(ne) => {
                    moves.push((e.location, ne.location));
                    proof {
                        assert forall|k: int| 0 <= k < next.entries@.len() implies exists|j: int|
                            0 <= j < i + 1 && (#[trigger] next.entries@[k]).id
                                == self.entries@[j].id by {
                            if k < before.len() {
                                assert(next.entries@[k] == before[k]);
                            } else {
                                assert(next.entries@[k].id == self.entries@[i as int].id);
                            }
                        }
                        assert(moved_from(self.entries@, next.entries@, moves@)) by {
                            assert forall|k: int| 0 <= k < next.entries@.len() implies exists|
                                j: int,
                            |
                                0 <= j < self.entries@.len() && moved_pair(
                                    self.entries@[j],
                                    #[trigger] next.entries@[k],
                                    moves@[k],
                                ) by {
                                if k < before.len() {
                                    assert(next.entries@[k] == before[k]);
                                } else {
                                    assert(moved_pair(self.entries@[i as int], next.entries@[k], moves@[k]));
                                }
                            }
                        }
                    }
                },
                None => {
                    if !allow_data_loss {
                        proof {
                            let k = i as int;
                            let ek = old(self).entries()[k];
                            assert(ek == e);
                            assert(pre_next.entries@.len() == k);
                            assert forall|j: int| 0 <= j < k implies same_texture(
                                #[trigger] pre_next.entries()[j],
                                old(self).entries()[j],
                            ) by {
                                assert(pre_next.entries()[j] == pre_next.entries@[j]);
                                assert(old(self).entries()[j] == self.entries@[j]);
                            }
                            lemma_holds_prefix(
                                pre_next,
                                old(self).entries(),
                                k,
                                new_width,
                                new_height,
                                new_pages as nat,
                            );
                            assert(holds_resized(
                                pre_next,
                                old(self).entries().take(k),
                                new_width,
                                new_height,
                                new_pages as nat,
                            ));
                            assert(refuses(
                                pre_next,
                                ek.location.max_x - ek.location.min_x,
                                ek.location.max_y - ek.location.min_y,
                            ));
                        }
                        return Err(TextureAtlasError::ResizeFailedNotEnoughSpace);
                    }
                },
            }
            proof {
                if placed is Some {
                    assert(next.entries@.drop_last() =~= before);
                    assert(self.entries@[i as int] == e);
                }
                lemma_trace_step(
                    trace,
                    pre_next,
                    self.entries@,
                    before,
                    next.entries@,
                    i as int,
                    placed is Some,
                    new_width,
                    new_height,
                    new_pages as nat,
                );
                trace = trace.push(pre_next);
            }
            i = i + 1;
        }
        let ghost kept_loop = next.entries@;
        proof {
            lemma_trace_done(trace, self.entries@, kept_loop, new_width, new_height, new_pages as nat);
        }
        let ghost before_added = next;
        let (added, Ghost(wit)) = next.place_added(new_allocation);
        proof {
            if resize_has_room(old(self).entries(), new_width, new_height, new_pages, new_allocation) {
                if new_allocation is Some {
                    assert(before_added.entries().len() == old(self).entries().len());
                    lemma_empty_page_exists(before_added.entries(), before_added.pages());
                }
            }
        }
        if new_allocation.is_some() && added.is_none() && !allow_data_loss {
            proof {
                let n = old(self).entries().len() as int;
                assert(wit.entries() == before_added.entries());
                assert forall|j: int| 0 <= j < n implies same_texture(
                    #[trigger] wit.entries()[j],
                    old(self).entries()[j],
                ) by {
                    assert(wit.entries()[j] == next.entries@[j]);
                    assert(old(self).entries()[j] == self.entries@[j]);
                }
                lemma_holds_prefix(wit, old(self).entries(), n, new_width, new_height, new_pages as nat);
            }
            return Err(TextureAtlasError::ResizeFailedNotEnoughSpace);
        }
        assert(new_allocation is Some && added is None ==> earlier_state(
            wit,
            self.entries@,
            kept_loop,
            self.entries@.len() as int,
            new_width,
            new_height,
            new_pages as nat,
        )) by {
            if new_allocation is Some && added is None {
                let n = self.entries@.len() as int;
                assert(wit.entries() == kept_loop);
                assert(kept_loop.take(kept_loop.len() as int) =~= kept_loop);
                assert forall|k: int| 0 <= k < kept_loop.len() implies names(
                    self.entries@.take(n),
                    #[trigger] wit.entries()[k].id,
                ) by {
                    let jj = choose|jj: int| 0 <= jj < n && (#[trigger] kept_loop[k]).id == self.entries@[jj].id;
                    assert(self.entries@.take(n)[jj] == self.entries@[jj]);
                }
                assert(earlier_state(wit, self.entries@, kept_loop, n, new_width, new_height, new_pages as nat));
            }
        }
        proof {
            let fin = next.entries();
            let kept = if added is Some {
                fin.drop_last()
            } else {
                fin
            };
            assert(kept =~= kept_loop);
            if new_allocation is Some && added is None {
                assert(wit.entries().len() == kept.len());
                assert(refuses(
                    wit,
                    new_allocation->0[0] as int,
                    new_allocation->0[1] as int,
                ));
            }
        }
        *self = next;
        Ok((added, moves))
    }
}

/// The texture `kept` is `prior` moved: same name and size, and `pair`
/// records its old and new location.
pub open spec fn moved_pair(
    prior: TextureEntry,
    kept: TextureEntry,
    pair: (TextureLocation, TextureLocation),
) -> bool {
    &&& kept.id == prior.id
    &&& kept.location.max_x - kept.location.min_x == prior.location.max_x
        - prior.location.min_x
    &&& kept.location.max_y - kept.location.min_y == prior.location.max_y
        - prior.location.min_y
    &&& pair == (prior.location, kept.location)
}

/// Every texture of `kept` is one of `old` moved, as `moves` records in order.
pub open spec fn moved_from(
    old: Seq<TextureEntry>,
    kept: Seq<TextureEntry>,
    moves: Seq<(TextureLocation, TextureLocation)>,
) -> bool {
    &&& kept.len() == moves.len()
    &&& forall|k: int|
        0 <= k < kept.len() ==> exists|j: int|
            0 <= j < old.len() && moved_pair(old[j], #[trigger] kept[k], moves[k])
}

/// Textures placed on the same page never share a pixel.
pub proof fn law_textures_do_not_overlap(s: AtlasState)
    requires
        s.wf(),
    ensures
        forall|i: int, j: int|
            0 <= i < j < s.entries().len() && (#[trigger] s.entries()[i]).location.page_index == (
            #[trigger] s.entries()[j]).location.page_index ==> rects_apart(
                s.entries()[i].location.rect(),
                s.entries()[j].location.rect(),
            ),
{
}

/// Taking a texture out again undoes placing it: the atlas holds the same
/// records and the same usage as before the texture was placed.
pub proof fn law_deallocate_undoes_allocate(
    before: AtlasState,
    placed: AtlasState,
    after: AtlasState,
    e: TextureEntry,
)
    requires
        before.wf(),
        placed.wf(),
        after.wf(),
        placed.entries() == before.entries().push(e),
        after.entries() == placed.entries().remove(entry_index(placed.entries(), e.id)->0),
    ensures
        after.entries() == before.entries(),
        after.spec_usage() == before.spec_usage(),
{
    let s = placed.entries();
    let last = s.len() - 1;
    assert(s[last] == e);
    assert(entry_index(s, e.id) is Some);
    let i = entry_index(s, e.id)->0;
    assert(0 <= i < s.len() && s[i].id == e.id);
    if i != last {
        assert(s[i].id != s[last].id);
    }
    assert(s.remove(last) =~= before.entries());
}

/// Space that `deallocate` frees is used again: once the last texture on a
/// page is taken out, the atlas has an empty page, and `allocate` then
/// places any texture that fits a page.
pub proof fn law_freed_page_is_reused(before: AtlasState, after: AtlasState, i: int)
    requires
        before.wf(),
        0 <= i < before.entries().len(),
        after.pages() == before.pages(),
        after.entries() == before.entries().remove(i),
        forall|k: int|
            0 <= k < before.entries().len() && k != i ==> (#[trigger] before.entries()[k]).location.page_index
                != before.entries()[i].location.page_index,
    ensures
        after.has_empty_page(),
{
    let p = before.entries()[i].location.page_index as int;
    assert forall|k: int| 0 <= k < after.entries().len() implies (#[trigger] after.entries()[k]).location.page_index
        != p by {
        let ok = if k < i { k } else { k + 1 };
        assert(after.entries()[k] == before.entries()[ok]);
    }
    assert(!page_used_in(after.entries(), p));
}

/// The usage is the total area of the placed textures, modulo the word size.
pub proof fn law_usage_is_total_area(s: AtlasState)
    requires
        s.wf(),
    ensures
        s.spec_usage() as int == total_area(s.entries()) % (usize::MAX as int + 1),
{
}

} // verus!
