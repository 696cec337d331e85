use vstd::prelude::*;
use crate::recursive_atlas::CacheKey;
use vstd::multiset::Multiset;

verus! {

/// `2` raised to `n`.
pub open spec fn two_pow(n: nat) -> nat
    decreases n,
{
    if n == 0 {
        1
    } else {
        2 * two_pow((n - 1) as nat)
    }
}

// MARK: model

/// The mathematical picture of a cache node: its square (side `size`, upper
/// left corner `(x0, y0)`), its depth budget `level`, and what it holds.
pub struct NodeModel<const N: u32> {
    pub size: int,
    pub level: int,
    pub x0: int,
    pub x1: int,
    pub y0: int,
    pub y1: int,
    pub content: ContentModel<N>,
}

/// Either up to four quadrant children (in the order upper left, upper
/// right, lower left, lower right) or one stored key with its store time.
pub enum ContentModel<const N: u32> {
    Split(Seq<NodeModel<N>>),
    Stored(CacheKey<N>, u32),
}

/// What a successful store reports: the key, the square it now occupies and
/// the keys that were evicted to make room.
pub struct StoreOutcome<const N: u32> {
    pub key: CacheKey<N>,
    /// Level of the node that now holds the key.
    pub level: int,
    pub x_range: (int, int),
    pub y_range: (int, int),
    pub dead: Seq<CacheKey<N>>,
}

/// Keys held by a sequence of sibling nodes, in order.
pub open spec fn items_of_seq<const N: u32>(s: Seq<NodeModel<N>>) -> Seq<CacheKey<N>>
    decreases s,
{
    if s.len() == 0 {
        Seq::empty()
    } else {
        items_of_seq(s.subrange(0, s.len() - 1)) + s[s.len() - 1].items()
    }
}

/// Smallest `oldest` over a non-empty sequence of siblings, `0` when empty.
pub open spec fn min_oldest_of_seq<const N: u32>(s: Seq<NodeModel<N>>, size: u32) -> u32
    decreases s,
{
    if s.len() == 0 {
        0
    } else if s.len() == 1 {
        s[0].oldest(size)
    } else {
        let a = min_oldest_of_seq(s.subrange(0, s.len() - 1), size);
        let b = s[s.len() - 1].oldest(size);
        if b < a {
            b
        } else {
            a
        }
    }
}

/// Largest `newest` over a sequence of siblings, `0` when empty.
pub open spec fn max_newest_of_seq<const N: u32>(s: Seq<NodeModel<N>>) -> u32
    decreases s,
{
    if s.len() == 0 {
        0
    } else {
        let a = max_newest_of_seq(s.subrange(0, s.len() - 1));
        let b = s[s.len() - 1].newest();
        if b > a {
            b
        } else {
            a
        }
    }
}

/// Scan of the first `n` children for the one whose `oldest` is smallest;
/// the first such child wins ties. Starts from age `u32::MAX` at index `0`.
pub open spec fn pick_child<const N: u32>(s: Seq<NodeModel<N>>, size: u32, n: nat) -> (u32, int)
    decreases n,
{
    if n == 0 {
        (u32::MAX, 0)
    } else {
        let (best, idx) = pick_child(s, size, (n - 1) as nat);
        let age = s[n - 1].oldest(size);
        if age < best {
            (age, n - 1)
        } else {
            (best, idx)
        }
    }
}

impl<const N: u32> NodeModel<N> {
    pub open spec fn half(self) -> int {
        self.size / 2
    }

    /// A key of this size would be stored in this node itself rather than in a child.
    pub open spec fn stores_here(self, key: CacheKey<N>) -> bool {
        self.half() < key.spec_texture_size() || self.level == 0
    }

    pub open spec fn with_content(self, content: ContentModel<N>) -> Self {
        NodeModel { content, ..self }
    }

    /// The empty child covering quadrant `i` (0: upper left, 1: upper right,
    /// 2: lower left, 3: lower right).
    pub open spec fn quadrant(self, i: int) -> Self {
        NodeModel {
            size: self.half(),
            level: self.level - 1,
            x0: self.x0 + (i % 2) * self.half(),
            x1: self.x0 + (i % 2) * self.half() + self.half() - 1,
            y0: self.y0 + (i / 2) * self.half(),
            y1: self.y0 + (i / 2) * self.half() + self.half() - 1,
            content: ContentModel::Split(Seq::empty()),
        }
    }

    pub open spec fn same_square(self, other: Self) -> bool {
        self.size == other.size && self.level == other.level && self.x0 == other.x0 && self.y0
            == other.y0
    }

    /// All keys held in this subtree, children first in quadrant order.
    pub open spec fn items(self) -> Seq<CacheKey<N>>
        decreases self,
    {
        match self.content {
            ContentModel::Split(s) => items_of_seq(s),
            ContentModel::Stored(key, _) => seq![key],
        }
    }

    /// How old the entries are that a key of side `size` would evict if it
    /// were placed in this subtree; `0` where free room remains.
    pub open spec fn oldest(self, size: u32) -> u32
        decreases self,
    {
        match self.content {
            ContentModel::Split(s) => {
                if self.half() < size || s.len() >= 4 {
                    min_oldest_of_seq(s, size)
                } else {
                    0
                }
            },
            ContentModel::Stored(_, create_at) => create_at,
        }
    }

    /// The latest store time in this subtree, `0` when it is empty.
    pub open spec fn newest(self) -> u32
        decreases self,
    {
        match self.content {
            ContentModel::Split(s) => max_newest_of_seq(s),
            ContentModel::Stored(_, create_at) => create_at,
        }
    }

    /// Well-formedness: the square fits `u32` coordinates and is divisible
    /// `level` times, children are the quadrants in creation order, and a
    /// stored key fits its square tightly.
    pub open spec fn wf(self) -> bool
        decreases self,
    {
        &&& 0 <= self.size
        &&& 0 <= self.level
        &&& 0 <= self.x0
        &&& 0 <= self.y0
        &&& self.x1 == self.x0 + self.size - 1
        &&& self.y1 == self.y0 + self.size - 1
        &&& 0 <= self.x1 < u32::MAX
        &&& 0 <= self.y1 < u32::MAX
        &&& self.level <= u32::MAX
        &&& self.size <= u32::MAX
        &&& self.size % (two_pow(self.level as nat) as int) == 0
        &&& match self.content {
            ContentModel::Split(s) => {
                &&& s.len() <= 4
                &&& (s.len() > 0 ==> self.level > 0)
                &&& forall|i: int|
                    0 <= i < s.len() ==> {
                        &&& (#[trigger] s[i]).wf()
                        &&& s[i].same_square(self.quadrant(i))
                    }
            },
            ContentModel::Stored(key, _) => {
                &&& key.spec_texture_size() <= self.size
                &&& self.stores_here(key)
            },
        }
    }

    /// The node and the report that storing `key` at `time` produces.
    pub open spec fn store(self, key: CacheKey<N>, time: u32) -> (Self, Option<StoreOutcome<N>>)
        decreases self.level, if self.content is Stored { 1int } else { 0int },
    {
        if key.spec_texture_size() > self.size {
            (self, None)
        } else if self.stores_here(key) {
            (
                self.with_content(ContentModel::Stored(key, time)),
                Some(
                    StoreOutcome {
                        key,
                        level: self.level,
                        x_range: (self.x0, self.x1),
                        y_range: (self.y0, self.y1),
                        dead: self.items(),
                    },
                ),
            )
        } else {
            match self.content {
                ContentModel::Stored(old_key, _) => {
                    let (n, r) = self.with_content(ContentModel::Split(Seq::empty())).store(
                        key,
                        time,
                    );
                    (
                        n,
                        match r {
                            Some(o) => Some(StoreOutcome { dead: o.dead.push(old_key), ..o }),
                            None => None,
                        },
                    )
                },
                ContentModel::Split(s) => {
                    if s.len() < 4 {
                        let child = self.quadrant(s.len() as int);
                        if 0 <= child.level < self.level {
                            let (c, r) = child.store(key, time);
                            (self.with_content(ContentModel::Split(s.push(c))), r)
                        } else {
                            (self, None)
                        }
                    } else {
                        let idx = pick_child(s, key.spec_texture_size(), s.len()).1;
                        let child = s[idx];
                        if 0 <= child.level < self.level {
                            let (c, r) = child.store(key, time);
                            (self.with_content(ContentModel::Split(s.update(idx, c))), r)
                        } else {
                            (self, None)
                        }
                    }
                },
            }
        }
    }
}


// MARK: lemmas

/// A node whose side divides `2^level`, with `level > 0`, has an even side
/// whose half divides `2^(level - 1)`.
proof fn lemma_half_divisible(size: int, level: nat)
    requires
        level > 0,
        size >= 0,
        size % (two_pow(level) as int) == 0,
    ensures
        size % 2 == 0,
        (size / 2) % (two_pow((level - 1) as nat) as int) == 0,
{
    let p = two_pow((level - 1) as nat) as int;
    lemma_two_pow_positive((level - 1) as nat);
    assert(two_pow(level) as int == 2 * p);
    let k = size / (2 * p);
    assert(size == k * (2 * p)) by (nonlinear_arith)
        requires
            size % (2 * p) == 0,
            p > 0,
            k == size / (2 * p),
    ;
    assert(size == 2 * (k * p)) by (nonlinear_arith)
        requires
            size == k * (2 * p),
    ;
    assert(size % 2 == 0 && size / 2 == k * p);
    assert((k * p) % p == 0) by (nonlinear_arith)
        requires
            p > 0,
    ;
}

proof fn lemma_two_pow_positive(n: nat)
    ensures
        two_pow(n) >= 1,
    decreases n,
{
    if n > 0 {
        lemma_two_pow_positive((n - 1) as nat);
    }
}

proof fn lemma_two_pow_monotonic(i: nat, j: nat)
    requires
        i <= j,
    ensures
        two_pow(i) <= two_pow(j),
    decreases j,
{
    if j > i {
        lemma_two_pow_monotonic(i, (j - 1) as nat);
        lemma_two_pow_positive((j - 1) as nat);
    }
}

proof fn lemma_two_pow_31()
    ensures
        two_pow(31) == 0x8000_0000,
{
    reveal_with_fuel(two_pow, 32);
}

// MARK: exec

/// `2^level` as a machine integer.
pub fn pow_of_two(level: u32) -> (p: u32)
    requires
        level < 32,
    ensures
        p == two_pow(level as nat),
        p >= 1,
{
    let mut p: u32 = 1;
    let mut i: u32 = 0;
    while i < level
        invariant
            i <= level < 32,
            p == two_pow(i as nat),
        decreases level - i,
    {
        proof {
            lemma_two_pow_monotonic(i as nat, 30);
            lemma_two_pow_31();
            assert(two_pow(31) == 2 * two_pow(30));
        }
        p = p * 2;
        i = i + 1;
    }
    proof {
        lemma_two_pow_positive(level as nat);
    }
    p
}

pub struct CacheNode<const N: u32> {
    // side of the square, equal to x_range[1] - x_range[0] + 1 and y_range[1] - y_range[0] + 1
    current_size: u32,
    current_level: u32,
    // texture atlas range of this node
    x_range: [u32; 2],
    y_range: [u32; 2],
    // the data stored in this node
    data: CacheData<N>,
}

pub enum CacheData<const N: u32> {
    /// Up to four quadrant children:
    /// ```text
    /// +---+---+- x
    /// | 0 | 1 |
    /// +---+---+
    /// | 2 | 3 |
    /// +---+---+
    /// y
    /// ```
    Split { item: Vec<CacheNode<N>> },
    Data { key: CacheKey<N>, create_at: u32 },
}

#[derive(Debug, Clone, Copy, PartialEq, Eq)]
pub struct StoreData<const N: u32> {
    pub key: CacheKey<N>,
    pub atlas_x_range: [u32; 2],
    pub atlas_y_range: [u32; 2],
}

#[derive(Debug, Clone, PartialEq, Eq)]
pub struct StoreResult<const N: u32> {
    pub store_data: StoreData<N>,
    pub dead_items: Vec<CacheKey<N>>,
}

impl<const N: u32> StoreResult<N> {
    /// Appends one more evicted key to the report.
    pub fn add_dead_item(self, key: CacheKey<N>) -> (r: Self)
        ensures
            r.store_data == self.store_data,
            r.dead_items@ == self.dead_items@.push(key),
    {
        let mut result = self;
        result.dead_items.push(key);
        result
    }
}

/// The report `r` says exactly what the outcome `o` says.
pub open spec fn outcome_matches<const N: u32>(
    r: Option<StoreResult<N>>,
    o: Option<StoreOutcome<N>>,
) -> bool {
    match (r, o) {
        (None, None) => true,
        (Some(r), Some(o)) => {
            &&& r.store_data.key == o.key
            &&& r.store_data.atlas_x_range[0] == o.x_range.0
            &&& r.store_data.atlas_x_range[1] == o.x_range.1
            &&& r.store_data.atlas_y_range[0] == o.y_range.0
            &&& r.store_data.atlas_y_range[1] == o.y_range.1
            &&& r.dead_items@ == o.dead
        },
        _ => false,
    }
}

spec fn node_view<const N: u32>(n: CacheNode<N>) -> NodeModel<N>
    decreases n,
{
    NodeModel {
        size: n.current_size as int,
        level: n.current_level as int,
        x0: n.x_range[0] as int,
        x1: n.x_range[1] as int,
        y0: n.y_range[0] as int,
        y1: n.y_range[1] as int,
        content: match n.data {
            CacheData::Split { item } => ContentModel::Split(nodes_view(item@)),
            CacheData::Data { key, create_at } => ContentModel::Stored(key, create_at),
        },
    }
}

spec fn nodes_view<const N: u32>(s: Seq<CacheNode<N>>) -> Seq<NodeModel<N>>
    decreases s,
{
    if s.len() == 0 {
        Seq::empty()
    } else {
        nodes_view(s.subrange(0, s.len() - 1)).push(node_view(s[s.len() - 1]))
    }
}

proof fn lemma_nodes_view<const N: u32>(s: Seq<CacheNode<N>>)
    ensures
        nodes_view(s).len() == s.len(),
        forall|i: int| 0 <= i < s.len() ==> #[trigger] nodes_view(s)[i] == s[i]@,
    decreases s.len(),
{
    if s.len() > 0 {
        lemma_nodes_view(s.subrange(0, s.len() - 1));
    }
}

impl<const N: u32> View for CacheNode<N> {
    type V = NodeModel<N>;

    closed spec fn view(&self) -> NodeModel<N> {
        node_view(*self)
    }
}


proof fn lemma_view_of_split<const N: u32>(n: CacheNode<N>)
    requires
        n.data is Split,
    ensures
        n@.content == ContentModel::Split(nodes_view(n.data->item@)),
        nodes_view(n.data->item@).len() == n.data->item@.len(),
        forall|i: int|
            0 <= i < n.data->item@.len() ==> #[trigger] nodes_view(n.data->item@)[i]
                == n.data->item@[i]@,
{
    lemma_nodes_view(n.data->item@);
}

impl<const N: u32> CacheNode<N> {
    /// The node is well formed (see `NodeModel::wf`).
    pub open spec fn wf(&self) -> bool {
        self@.wf()
    }

    proof fn lemma_view_fields(&self)
        ensures
            self@.size == self.current_size,
            self@.level == self.current_level,
            self@.x0 == self.x_range[0],
            self@.x1 == self.x_range[1],
            self@.y0 == self.y_range[0],
            self@.y1 == self.y_range[1],
            self.data matches CacheData::Data { key, create_at } ==> self@.content
                == ContentModel::<N>::Stored(key, create_at),
            self.data is Split ==> self@.content is Split,
    {
    }

    /// An empty node covering the square of side `current_size` whose upper
    /// left corner is `(offset_x, offset_y)`, allowed to split `current_level`
    /// times; `None` when the side is not divisible by `2^current_level`.
    pub fn new(current_size: u32, current_level: u32, offset_x: u32, offset_y: u32) -> (r: Option<
        Self,
    >)
        requires
            current_level < 32,
            (current_size as int) % (two_pow(current_level as nat) as int) == 0 ==> {
                &&& 1 <= offset_x + current_size <= u32::MAX
                &&& 1 <= offset_y + current_size <= u32::MAX
            },
        ensures
            r is Some <==> (current_size as int) % (two_pow(current_level as nat) as int) == 0,
            r matches Some(n) ==> {
                &&& n.wf()
                &&& n@ == NodeModel::<N> {
                    size: current_size as int,
                    level: current_level as int,
                    x0: offset_x as int,
                    x1: offset_x + current_size - 1,
                    y0: offset_y as int,
                    y1: offset_y + current_size - 1,
                    content: ContentModel::Split(Seq::empty()),
                }
            },
    {
        let p = pow_of_two(current_level);
        if current_size % p != 0 {
            return None;
        }
        let n = CacheNode {
            current_size,
            current_level,
            x_range: [offset_x, offset_x + current_size - 1],
            y_range: [offset_y, offset_y + current_size - 1],
            data: CacheData::Split { item: Vec::new() },
        };
        proof {
            lemma_view_of_split(n);
        }
        Some(n)
    }

    /// The columns `[first, last]` of the atlas that this node covers.
    pub fn x_range(&self) -> (r: [u32; 2])
        ensures
            r[0] == self@.x0,
            r[1] == self@.x1,
    {
        self.x_range
    }

    /// The rows `[first, last]` of the atlas that this node covers.
    pub fn y_range(&self) -> (r: [u32; 2])
        ensures
            r[0] == self@.y0,
            r[1] == self@.y1,
    {
        self.y_range
    }

    /// The empty child for quadrant `i` of this node.
    fn make_quadrant(&self, i: usize) -> (c: Self)
        requires
            self.wf(),
            self.current_level > 0,
            i < 4,
        ensures
            c.wf(),
            c@ == self@.quadrant(i as int),
    {
        proof {
            self.lemma_view_fields();
            lemma_half_divisible(self.current_size as int, self.current_level as nat);
        }
        let half = self.current_size / 2;
        let x0 = if i % 2 == 1 {
            self.x_range[0] + half
        } else {
            self.x_range[0]
        };
        let y0 = if i / 2 == 1 {
            self.y_range[0] + half
        } else {
            self.y_range[0]
        };
        let c = CacheNode {
            current_size: half,
            current_level: self.current_level - 1,
            x_range: [x0, x0 + half - 1],
            y_range: [y0, y0 + half - 1],
            data: CacheData::Split { item: Vec::new() },
        };
        proof {
            lemma_view_of_split(c);
            assert(c@.content == ContentModel::<N>::Split(Seq::empty()));
            let h = half as int;
            let ii = i as int;
            assert((ii % 2) * h == (if ii % 2 == 1 { h } else { 0 })) by (nonlinear_arith)
                requires
                    0 <= ii < 4,
            ;
            assert((ii / 2) * h == (if ii / 2 == 1 { h } else { 0 })) by (nonlinear_arith)
                requires
                    0 <= ii < 4,
            ;
        }
        c
    }

    /// All keys stored in this node, children first in quadrant order.
    pub fn items(&self) -> (r: Vec<CacheKey<N>>)
        requires
            self.wf(),
        ensures
            r@ == self@.items(),
        decreases self@.level,
    {
        match &self.data {
            CacheData::Split { item } => {
                proof {
                    lemma_view_of_split(*self);
                }
                let ghost s = nodes_view(item@);
                let mut out: Vec<CacheKey<N>> = Vec::new();
                let mut i: usize = 0;
                while i < item.len()
                    invariant
                        i <= item@.len(),
                        s.len() == item@.len(),
                        s == nodes_view(item@),
                        self@.content == ContentModel::Split(s),
                        self@.wf(),
                        forall|j: int| 0 <= j < item@.len() ==> #[trigger] s[j] == item@[j]@,
                        out@ == items_of_seq(s.subrange(0, i as int)),
                    decreases item@.len() - i,
                {
                    assert(s[i as int].wf());
                    let mut sub = item[i].items();
                    out.append(&mut sub);
                    proof {
                        assert(s.subrange(0, i + 1).subrange(0, i as int) =~= s.subrange(
                            0,
                            i as int,
                        ));
                    }
                    i = i + 1;
                }
                proof {
                    assert(s.subrange(0, s.len() as int) =~= s);
                }
                out
            },
            CacheData::Data { key, .. } => {
                let mut out: Vec<CacheKey<N>> = Vec::new();
                out.push(*key);
                proof {
                    assert(out@ =~= seq![*key]);
                }
                out
            },
        }
    }

    /// How old the entries are that a key of side `size` would evict if it
    /// were placed in this node; `0` where free room remains.
    pub fn oldest(&self, size: u32) -> (r: u32)
        requires
            self.wf(),
        ensures
            r == self@.oldest(size),
        decreases self@.level,
    {
        match &self.data {
            CacheData::Split { item } => {
                proof {
                    lemma_view_of_split(*self);
                }
                let ghost s = nodes_view(item@);
                if !(self.current_size / 2 < size || item.len() >= 4) {
                    return 0;
                }
                if item.len() == 0 {
                    return 0;
                }
                assert(s[0].wf());
                let mut m = item[0].oldest(size);
                proof {
                    assert(s.subrange(0, 1).len() == 1);
                    assert(s.subrange(0, 1)[0] == s[0]);
                }
                let mut i: usize = 1;
                while i < item.len()
                    invariant
                        1 <= i <= item@.len(),
                        s.len() == item@.len(),
                        self@.content == ContentModel::Split(s),
                        self@.wf(),
                        forall|j: int| 0 <= j < item@.len() ==> #[trigger] s[j] == item@[j]@,
                        m == min_oldest_of_seq(s.subrange(0, i as int), size),
                    decreases item@.len() - i,
                {
                    assert(s[i as int].wf());
                    let a = item[i].oldest(size);
                    proof {
                        assert(s.subrange(0, i + 1).subrange(0, i as int) =~= s.subrange(
                            0,
                            i as int,
                        ));
                    }
                    if a < m {
                        m = a;
                    }
                    i = i + 1;
                }
                proof {
                    assert(s.subrange(0, s.len() as int) =~= s);
                }
                m
            },
            CacheData::Data { create_at, .. } => *create_at,
        }
    }

    /// The latest store time in this node, `0` when it is empty. The size
    /// argument is not consulted.
    pub fn newest(&self, size: u32) -> (r: u32)
        requires
            self.wf(),
        ensures
            r == self@.newest(),
        decreases self@.level,
    {
        match &self.data {
            CacheData::Split { item } => {
                proof {
                    lemma_view_of_split(*self);
                }
                let ghost s = nodes_view(item@);
                let mut m: u32 = 0;
                let mut i: usize = 0;
                while i < item.len()
                    invariant
                        i <= item@.len(),
                        s.len() == item@.len(),
                        self@.content == ContentModel::Split(s),
                        self@.wf(),
                        forall|j: int| 0 <= j < item@.len() ==> #[trigger] s[j] == item@[j]@,
                        m == max_newest_of_seq(s.subrange(0, i as int)),
                    decreases item@.len() - i,
                {
                    assert(s[i as int].wf());
                    let b = item[i].newest(size);
                    proof {
                        assert(s.subrange(0, i + 1).subrange(0, i as int) =~= s.subrange(
                            0,
                            i as int,
                        ));
                    }
                    if b > m {
                        m = b;
                    }
                    i = i + 1;
                }
                proof {
                    assert(s.subrange(0, s.len() as int) =~= s);
                }
                m
            },
            CacheData::Data { create_at, .. } => *create_at,
        }
    }

    /// Index of the child whose `oldest(size)` is smallest, the first one on ties.
    fn pick_oldest_child(item: &Vec<CacheNode<N>>, size: u32) -> (r: usize)
        requires
            item@.len() == 4,
            forall|j: int| 0 <= j < 4 ==> (#[trigger] item@[j]).wf(),
        ensures
            r == pick_child(nodes_view(item@), size, 4).1,
            r < 4,
    {
        proof {
            lemma_nodes_view(item@);
        }
        let ghost s = nodes_view(item@);
        let mut best: u32 = u32::MAX;
        let mut idx: usize = 0;
        let mut i: usize = 0;
        while i < 4
            invariant
                i <= 4,
                item@.len() == 4,
                s == nodes_view(item@),
                s.len() == 4,
                forall|j: int| 0 <= j < 4 ==> #[trigger] s[j] == item@[j]@,
                forall|j: int| 0 <= j < 4 ==> (#[trigger] item@[j]).wf(),
                (best, idx as int) == pick_child(s, size, i as nat),
                idx < 4,
            decreases 4 - i,
        {
            let age = item[i].oldest(size);
            if age < best {
                best = age;
                idx = i;
            }
            i = i + 1;
        }
        idx
    }

    /// Stores `key` at `time`, evicting what has to make room; `None` when
    /// the key's texture is larger than this node.
    pub fn store(&mut self, key: CacheKey<N>, time: u32) -> (r: Option<StoreResult<N>>)
        requires
            old(self).wf(),
        ensures
            final(self).wf(),
            final(self)@ == old(self)@.store(key, time).0,
            final(self)@.same_square(old(self)@),
            outcome_matches(r, old(self)@.store(key, time).1),
        decreases old(self)@.level, if old(self)@.content is Stored {
            1int
        } else {
            0int
        },
    {
        proof {
            self.lemma_view_fields();
        }
        let size = key.get_texture_size();
        if size > self.current_size {
            return None;
        }
        if self.current_size / 2 < size || self.current_level == 0 {
            let dead_items = self.items();
            self.data = CacheData::Data { key, create_at: time };
            proof {
                self.lemma_view_fields();
            }
            return Some(
                StoreResult {
                    store_data: StoreData {
                        key,
                        atlas_x_range: self.x_range,
                        atlas_y_range: self.y_range,
                    },
                    dead_items,
                },
            );
        }
        let mut old_data = CacheData::Split { item: Vec::new() };
        std::mem::swap(&mut self.data, &mut old_data);
        proof {
            lemma_view_of_split(*self);
            assert(self@ == old(self)@.with_content(ContentModel::Split(Seq::empty())));
        }
        match old_data {
            CacheData::Data { key: old_key, .. } => {
                let r = self.store(key, time);
                match r {
                    Some(res) => Some(res.add_dead_item(old_key)),
                    None => None,
                }
            },
            CacheData::Split { item } => {
                let mut item = item;
                proof {
                    lemma_nodes_view(item@);
                    assert(old(self)@.content == ContentModel::Split(nodes_view(item@)));
                }
                let ghost s = nodes_view(item@);
                assert forall|j: int| 0 <= j < item@.len() implies (#[trigger] item@[j]).wf() by {
                    assert(s[j].wf());
                }
                let len = item.len();
                let r;
                if len < 4 {
                    let child = self.make_quadrant(len);
                    item.push(child);
                    proof {
                        assert(item@[len as int]@ == old(self)@.quadrant(len as int));
                    }
                    r = item[len].store(key, time);
                } else {
                    let idx = Self::pick_oldest_child(&item, size);
                    r = item[idx].store(key, time);
                }
                proof {
                    lemma_nodes_view(item@);
                }
                self.data = CacheData::Split { item };
                proof {
                    lemma_view_of_split(*self);
                    let t = old(self)@;
                    let ns = nodes_view(self.data->item@);
                    if len < 4 {
                        assert(ns =~= s.push(ns[len as int]));
                        assert(ns[len as int].same_square(t.quadrant(len as int)));
                    } else {
                        let idx = pick_child(s, size, 4).1;
                        assert(ns =~= s.update(idx, ns[idx]));
                        assert(ns[idx].same_square(t.quadrant(idx)));
                    }
                    assert forall|j: int| 0 <= j < ns.len() implies {
                        &&& (#[trigger] ns[j]).wf()
                        &&& ns[j].same_square(t.quadrant(j))
                    } by {
                        assert(ns[j] == self.data->item@[j]@);
                        if j < s.len() {
                            assert(s[j].wf());
                        }
                    }
                    assert(self@.wf());
                }
                r
            },
        }
    }
}


// MARK: laws

/// The keys of two runs of siblings placed one after the other are the keys
/// of the first run followed by those of the second.
pub proof fn lemma_items_of_concat<const N: u32>(a: Seq<NodeModel<N>>, b: Seq<NodeModel<N>>)
    ensures
        items_of_seq(a + b) == items_of_seq(a) + items_of_seq(b),
    decreases b.len(),
{
    if b.len() == 0 {
        assert(a + b =~= a);
        assert(items_of_seq(a) + items_of_seq(b) =~= items_of_seq(a));
    } else {
        let b0 = b.subrange(0, b.len() - 1);
        lemma_items_of_concat(a, b0);
        assert((a + b).subrange(0, (a + b).len() - 1) =~= a + b0);
        assert((a + b)[(a + b).len() - 1] == b[b.len() - 1]);
        assert(items_of_seq(a + b) =~= items_of_seq(a) + items_of_seq(b));
    }
}

proof fn lemma_items_of_single<const N: u32>(c: NodeModel<N>)
    ensures
        items_of_seq(seq![c]) == c.items(),
{
    assert(seq![c].subrange(0, 0) =~= Seq::<NodeModel<N>>::empty());
    assert(items_of_seq(Seq::<NodeModel<N>>::empty()) + c.items() =~= c.items());
}

/// Keys of the siblings after child `i` is replaced by `c`, as a multiset:
/// those of before, less those of the old child, plus those of `c`.
proof fn lemma_items_of_update<const N: u32>(s: Seq<NodeModel<N>>, i: int, c: NodeModel<N>)
    requires
        0 <= i < s.len(),
    ensures
        items_of_seq(s).to_multiset().add(c.items().to_multiset()) =~= items_of_seq(
            s.update(i, c),
        ).to_multiset().add(s[i].items().to_multiset()),
        forall|j: int|
            0 <= j < c.items().len() ==> items_of_seq(s.update(i, c)).contains(
                #[trigger] c.items()[j],
            ),
{
    broadcast use vstd::seq_lib::lemma_multiset_commutative;
    broadcast use vstd::multiset::group_multiset_axioms;

    let pre = s.subrange(0, i);
    let post = s.subrange(i + 1, s.len() as int);
    assert(s =~= pre + seq![s[i]] + post);
    assert(s.update(i, c) =~= pre + seq![c] + post);
    lemma_items_of_concat(pre + seq![s[i]], post);
    lemma_items_of_concat(pre, seq![s[i]]);
    lemma_items_of_concat(pre + seq![c], post);
    lemma_items_of_concat(pre, seq![c]);
    lemma_items_of_single(s[i]);
    lemma_items_of_single(c);
    let ip = items_of_seq(pre);
    let iq = items_of_seq(post);
    assert(items_of_seq(s) == ip + s[i].items() + iq);
    assert(items_of_seq(s.update(i, c)) == ip + c.items() + iq);
    assert forall|j: int| 0 <= j < c.items().len() implies items_of_seq(s.update(i, c)).contains(
        #[trigger] c.items()[j],
    ) by {
        assert(items_of_seq(s.update(i, c))[ip.len() + j] == c.items()[j]);
    }
}

/// Keys of the siblings after `c` is appended.
proof fn lemma_items_of_push<const N: u32>(s: Seq<NodeModel<N>>, c: NodeModel<N>)
    ensures
        items_of_seq(s.push(c)) == items_of_seq(s) + c.items(),
{
    assert(s.push(c).subrange(0, s.len() as int) =~= s);
}


proof fn lemma_pick_child_range<const N: u32>(s: Seq<NodeModel<N>>, size: u32, n: nat)
    requires
        n >= 1,
    ensures
        0 <= pick_child(s, size, n).1 < n,
    decreases n,
{
    if n > 1 {
        lemma_pick_child_range(s, size, (n - 1) as nat);
    } else {
        assert(pick_child(s, size, 0) == (u32::MAX, 0int));
    }
}

/// A quadrant lies inside its parent's square.
proof fn lemma_quadrant_inside<const N: u32>(t: NodeModel<N>, i: int)
    requires
        t.wf(),
        t.level > 0,
        0 <= i < 4,
    ensures
        t.x0 <= t.quadrant(i).x0,
        t.quadrant(i).x1 <= t.x1,
        t.y0 <= t.quadrant(i).y0,
        t.quadrant(i).y1 <= t.y1,
{
    lemma_half_divisible(t.size, t.level as nat);
    let h = t.half();
    assert(0 <= i % 2 <= 1);
    assert(0 <= i / 2 <= 1);
    assert(0 <= (i % 2) * h <= h) by (nonlinear_arith)
        requires
            0 <= i % 2 <= 1,
            h >= 0,
    ;
    assert(0 <= (i / 2) * h <= h) by (nonlinear_arith)
        requires
            0 <= i / 2 <= 1,
            h >= 0,
    ;
}

/// A quadrant of a well-formed node that may split is itself well formed.
pub proof fn lemma_quadrant_wf<const N: u32>(t: NodeModel<N>, i: int)
    requires
        t.wf(),
        t.level > 0,
        0 <= i < 4,
    ensures
        t.quadrant(i).wf(),
        t.quadrant(i).same_square(t.quadrant(i)),
{
    lemma_half_divisible(t.size, t.level as nat);
    let h = t.half();
    let q = t.quadrant(i);
    if i % 2 == 1 {
        assert((i % 2) * h == h);
    } else {
        assert((i % 2) * h == 0);
    }
    if i / 2 == 1 {
        assert((i / 2) * h == h);
    } else {
        assert((i / 2) * h == 0);
    }
    assert(q.content == ContentModel::<N>::Split(Seq::empty()));
}

/// Storing never loses or invents a key: the keys held before, plus the new
/// key, are exactly the keys held after plus the keys reported as evicted;
/// the new key is held afterwards. A store is refused exactly when the key's
/// texture is larger than the node, and a refused store changes nothing.
pub proof fn law_store_conserves_keys<const N: u32>(t: NodeModel<N>, key: CacheKey<N>, time: u32)
    requires
        t.wf(),
    ensures
        ({
            let (n, r) = t.store(key, time);
            &&& r is Some <==> key.spec_texture_size() <= t.size
            &&& match r {
                Some(o) => {
                    &&& o.key == key
                    &&& t.items().to_multiset().insert(key) =~= n.items().to_multiset().add(
                        o.dead.to_multiset(),
                    )
                    &&& n.items().contains(key)
                },
                None => n == t,
            }
        }),
    decreases t.level, if t.content is Stored {
        1int
    } else {
        0int
    },
{
    broadcast use vstd::seq_lib::group_to_multiset_ensures;
    broadcast use vstd::multiset::group_multiset_axioms;
    broadcast use vstd::seq_lib::lemma_multiset_commutative;

    let (n, r) = t.store(key, time);
    if key.spec_texture_size() > t.size {
    } else if t.stores_here(key) {
        assert(n.items() =~= seq![key]);
        assert(seq![key] =~= Seq::<CacheKey<N>>::empty().push(key));
        assert(n.items().contains(key)) by {
            assert(n.items()[0] == key);
        }
        assert(Seq::<CacheKey<N>>::empty().to_multiset() =~= Multiset::empty());
        assert(n.items().to_multiset() =~= Multiset::empty().insert(key));
        let o = r->0;
        assert(o.dead == t.items());
        assert(t.items().to_multiset().insert(key) =~= n.items().to_multiset().add(o.dead.to_multiset()));
    } else {
        match t.content {
            ContentModel::Stored(old_key, _) => {
                let t2 = t.with_content(ContentModel::Split(Seq::empty()));
                assert(t2.wf());
                law_store_conserves_keys(t2, key, time);
                assert(items_of_seq(Seq::<NodeModel<N>>::empty()) =~= Seq::<CacheKey<N>>::empty());
                assert(t.items() =~= Seq::<CacheKey<N>>::empty().push(old_key));
                assert(t2.items().to_multiset() =~= Multiset::empty());
                let o = r->0;
                let o2 = t2.store(key, time).1->0;
                assert(o.dead == o2.dead.push(old_key));
                assert(o.dead.to_multiset() =~= o2.dead.to_multiset().insert(old_key));
                let m1 = t.items().to_multiset().insert(key);
                let m2 = n.items().to_multiset().add(o.dead.to_multiset());
                assert forall|x: CacheKey<N>| #[trigger] m1.count(x) == m2.count(x) by {
                    assert(t2.items().to_multiset().insert(key).count(x) == n.items().to_multiset().add(
                        o2.dead.to_multiset(),
                    ).count(x));
                }
                assert(m1 =~= m2);
            },
            ContentModel::Split(s) => {
                if s.len() < 4 {
                    let child = t.quadrant(s.len() as int);
                    lemma_quadrant_wf(t, s.len() as int);
                    law_store_conserves_keys(child, key, time);
                    let (c, rc) = child.store(key, time);
                    lemma_items_of_push(s, c);
                    assert(items_of_seq(Seq::<NodeModel<N>>::empty()) =~= Seq::<CacheKey<N>>::empty());
                    assert(child.items().to_multiset() =~= Multiset::empty());
                    let k = choose|j: int| 0 <= j < c.items().len() && c.items()[j] == key;
                    assert(n.items()[items_of_seq(s).len() + k] == key);
                    let m1 = t.items().to_multiset().insert(key);
                    let m2 = n.items().to_multiset().add(r->0.dead.to_multiset());
                    assert forall|x: CacheKey<N>| #[trigger] m1.count(x) == m2.count(x) by {
                        assert(child.items().to_multiset().insert(key).count(x) == c.items().to_multiset().add(
                            rc->0.dead.to_multiset(),
                        ).count(x));
                    }
                    assert(m1 =~= m2);
                } else {
                    let idx = pick_child(s, key.spec_texture_size(), s.len()).1;
                    lemma_pick_child_range(s, key.spec_texture_size(), s.len());
                    let child = s[idx];
                    assert(child.wf());
                    law_store_conserves_keys(child, key, time);
                    let (c, rc) = child.store(key, time);
                    lemma_items_of_update(s, idx, c);
                    let k = choose|j: int| 0 <= j < c.items().len() && c.items()[j] == key;
                    assert(items_of_seq(s.update(idx, c)).contains(c.items()[k]));
                    let m1 = t.items().to_multiset().insert(key);
                    let m2 = n.items().to_multiset().add(r->0.dead.to_multiset());
                    assert forall|x: CacheKey<N>| #[trigger] m1.count(x) == m2.count(x) by {
                        assert(child.items().to_multiset().insert(key).count(x) == c.items().to_multiset().add(
                            rc->0.dead.to_multiset(),
                        ).count(x));
                        assert(items_of_seq(s).to_multiset().add(c.items().to_multiset()).count(x)
                            == items_of_seq(s.update(idx, c)).to_multiset().add(s[idx].items().to_multiset()).count(x));
                    }
                    assert(m1 =~= m2);
                }
            },
        }
    }
}


/// Where a stored key lands: a square inside the node's own square, no
/// smaller than the key's texture, and no larger than needed (its half is
/// too small for the key, or it may not split further).
pub proof fn law_store_placement<const N: u32>(t: NodeModel<N>, key: CacheKey<N>, time: u32)
    requires
        t.wf(),
    ensures
        t.store(key, time).1 matches Some(o) ==> {
            let side = o.x_range.1 - o.x_range.0 + 1;
            &&& t.x0 <= o.x_range.0 && o.x_range.1 <= t.x1
            &&& t.y0 <= o.y_range.0 && o.y_range.1 <= t.y1
            &&& o.y_range.1 - o.y_range.0 + 1 == side
            &&& key.spec_texture_size() <= side
            &&& (side / 2 < key.spec_texture_size() || o.level == 0)
            &&& 0 <= o.level <= t.level
            &&& t.size > 0 ==> side > 0
        },
    decreases t.level, if t.content is Stored {
        1int
    } else {
        0int
    },
{
    if key.spec_texture_size() > t.size {
    } else if t.stores_here(key) {
    } else {
        lemma_half_divisible(t.size, t.level as nat);
        match t.content {
            ContentModel::Stored(old_key, _) => {
                let t2 = t.with_content(ContentModel::Split(Seq::empty()));
                law_store_placement(t2, key, time);
            },
            ContentModel::Split(s) => {
                let i = if s.len() < 4 {
                    s.len() as int
                } else {
                    lemma_pick_child_range(s, key.spec_texture_size(), s.len());
                    pick_child(s, key.spec_texture_size(), s.len()).1
                };
                let child = if s.len() < 4 {
                    t.quadrant(i)
                } else {
                    s[i]
                };
                if s.len() < 4 {
                    lemma_quadrant_wf(t, i);
                }
                assert(child.same_square(t.quadrant(i)));
                assert(child.wf());
                lemma_quadrant_inside(t, i);
                assert(t.size > 0 ==> child.size > 0);
                assert(child.x1 == t.quadrant(i).x1);
                law_store_placement(child, key, time);
            },
        }
    }
}


// MARK: squares

/// A held key and the square it occupies, as inclusive pixel ranges.
pub struct Placed<const N: u32> {
    pub key: CacheKey<N>,
    pub x: (int, int),
    pub y: (int, int),
}

/// Two squares share no pixel.
pub open spec fn squares_apart<const N: u32>(a: Placed<N>, b: Placed<N>) -> bool {
    a.x.1 < b.x.0 || b.x.1 < a.x.0 || a.y.1 < b.y.0 || b.y.1 < a.y.0
}

/// The squares of the keys held by a sequence of sibling nodes, in order.
pub open spec fn squares_of_seq<const N: u32>(s: Seq<NodeModel<N>>) -> Seq<Placed<N>>
    decreases s,
{
    if s.len() == 0 {
        Seq::empty()
    } else {
        squares_of_seq(s.subrange(0, s.len() - 1)) + s[s.len() - 1].squares()
    }
}

impl<const N: u32> NodeModel<N> {
    /// The squares of the keys this subtree holds, in the order of `items`.
    pub open spec fn squares(self) -> Seq<Placed<N>>
        decreases self,
    {
        match self.content {
            ContentModel::Split(s) => squares_of_seq(s),
            ContentModel::Stored(key, _) => seq![
                Placed { key, x: (self.x0, self.x1), y: (self.y0, self.y1) },
            ],
        }
    }

    /// `p` is a non-empty square inside this node's square.
    pub open spec fn covers(self, p: Placed<N>) -> bool {
        &&& self.x0 <= p.x.0 <= p.x.1 <= self.x1
        &&& self.y0 <= p.y.0 <= p.y.1 <= self.y1
    }
}

/// The squares list the held keys, in order.
proof fn lemma_squares_keys<const N: u32>(t: NodeModel<N>)
    ensures
        t.squares().len() == t.items().len(),
        forall|m: int| 0 <= m < t.squares().len() ==> (#[trigger] t.squares()[m]).key == t.items()[m],
    decreases t, 5int,
{
    match t.content {
        ContentModel::Split(s) => {
            lemma_squares_keys_seq(s, s.len() as int);
            assert(s.subrange(0, s.len() as int) =~= s);
            assert(t.squares() == squares_of_seq(s.subrange(0, s.len() as int)));
            assert(t.items() == items_of_seq(s.subrange(0, s.len() as int)));
        },
        ContentModel::Stored(_, _) => {},
    }
}

proof fn lemma_squares_keys_seq<const N: u32>(s: Seq<NodeModel<N>>, n: int)
    requires
        0 <= n <= s.len(),
    ensures
        squares_of_seq(s.subrange(0, n)).len() == items_of_seq(s.subrange(0, n)).len(),
        forall|m: int|
            0 <= m < squares_of_seq(s.subrange(0, n)).len() ==> (#[trigger] squares_of_seq(
                s.subrange(0, n),
            )[m]).key == items_of_seq(s.subrange(0, n))[m],
    decreases s, n,
{
    if n > 0 {
        let p = s.subrange(0, n);
        assert(p.subrange(0, n - 1) =~= s.subrange(0, n - 1));
        assert(p[n - 1] == s[n - 1]);
        lemma_squares_keys_seq(s, n - 1);
        lemma_squares_keys(s[n - 1]);
        let a = squares_of_seq(s.subrange(0, n - 1));
        let b = s[n - 1].squares();
        assert forall|m: int| 0 <= m < squares_of_seq(p).len() implies (#[trigger] squares_of_seq(
            p,
        )[m]).key == items_of_seq(p)[m] by {
            if m < a.len() {
                assert(squares_of_seq(p)[m] == a[m]);
            } else {
                assert(squares_of_seq(p)[m] == b[m - a.len()]);
            }
        }
    }
}

/// The quadrant of `t` that a square inside it starts in.
pub open spec fn quadrant_of<const N: u32>(t: NodeModel<N>, p: Placed<N>) -> int {
    (if p.x.0 >= t.x0 + t.half() {
        1int
    } else {
        0int
    }) + (if p.y.0 >= t.y0 + t.half() {
        2int
    } else {
        0int
    })
}

proof fn lemma_quadrant_of<const N: u32>(t: NodeModel<N>, q: int, p: Placed<N>)
    requires
        0 <= q < 4,
        t.quadrant(q).covers(p),
        t.half() > 0,
    ensures
        quadrant_of(t, p) == q,
{
    let h = t.half();
    assert(q % 2 == 0 || q % 2 == 1);
    assert((q % 2) * h == if q % 2 == 0 { 0 } else { h });
    assert(q / 2 == 0 || q / 2 == 1);
    assert((q / 2) * h == if q / 2 == 0 { 0 } else { h });
    assert(q == (q % 2) + 2 * (q / 2));
}

/// A square inside quadrant `q1` and one inside a different quadrant `q2`
/// share no pixel.
proof fn lemma_quadrants_apart<const N: u32>(
    t: NodeModel<N>,
    q1: int,
    q2: int,
    a: Placed<N>,
    b: Placed<N>,
)
    requires
        0 <= q1 < 4,
        0 <= q2 < 4,
        q1 != q2,
        t.quadrant(q1).covers(a),
        t.quadrant(q2).covers(b),
    ensures
        squares_apart(a, b),
{
    let h = t.half();
    assert(q1 % 2 == 0 || q1 % 2 == 1);
    assert(q2 % 2 == 0 || q2 % 2 == 1);
    assert((q1 % 2) * h == if q1 % 2 == 0 { 0 } else { h });
    assert((q2 % 2) * h == if q2 % 2 == 0 { 0 } else { h });
    assert(q1 / 2 == 0 || q1 / 2 == 1);
    assert(q2 / 2 == 0 || q2 / 2 == 1);
    assert((q1 / 2) * h == if q1 / 2 == 0 { 0 } else { h });
    assert((q2 / 2) * h == if q2 / 2 == 0 { 0 } else { h });
}

/// In a well-formed node of positive side, every held key's square is a
/// non-empty square inside the node's, and no two share a pixel.
pub proof fn law_held_squares_apart<const N: u32>(t: NodeModel<N>)
    requires
        t.wf(),
        t.size > 0,
    ensures
        forall|m: int| 0 <= m < t.squares().len() ==> t.covers(#[trigger] t.squares()[m]),
        forall|m1: int, m2: int|
            0 <= m1 < m2 < t.squares().len() ==> squares_apart(
                #[trigger] t.squares()[m1],
                #[trigger] t.squares()[m2],
            ),
    decreases t, 5int,
{
    match t.content {
        ContentModel::Split(s) => {
            lemma_squares_apart_seq(t, s, s.len() as int);
            assert(s.subrange(0, s.len() as int) =~= s);
            assert(t.squares() == squares_of_seq(s.subrange(0, s.len() as int)));
        },
        ContentModel::Stored(_, _) => {},
    }
}

proof fn lemma_squares_apart_seq<const N: u32>(t: NodeModel<N>, s: Seq<NodeModel<N>>, n: int)
    requires
        t.wf(),
        t.size > 0,
        t.content == ContentModel::<N>::Split(s),
        0 <= n <= s.len(),
    ensures
        forall|m: int|
            0 <= m < squares_of_seq(s.subrange(0, n)).len() ==> {
                let p = #[trigger] squares_of_seq(s.subrange(0, n))[m];
                &&& 0 <= quadrant_of(t, p) < n
                &&& t.quadrant(quadrant_of(t, p)).covers(p)
            },
        forall|m: int|
            0 <= m < squares_of_seq(s.subrange(0, n)).len() ==> t.covers(
                #[trigger] squares_of_seq(s.subrange(0, n))[m],
            ),
        forall|m1: int, m2: int|
            0 <= m1 < m2 < squares_of_seq(s.subrange(0, n)).len() ==> squares_apart(
                #[trigger] squares_of_seq(s.subrange(0, n))[m1],
                #[trigger] squares_of_seq(s.subrange(0, n))[m2],
            ),
    decreases t, n,
{
    if n > 0 {
        let p = s.subrange(0, n);
        assert(p.subrange(0, n - 1) =~= s.subrange(0, n - 1));
        assert(p[n - 1] == s[n - 1]);
        lemma_squares_apart_seq(t, s, n - 1);
        let c = s[n - 1];
        assert(c.wf() && c.same_square(t.quadrant(n - 1)));
        lemma_half_divisible(t.size, t.level as nat);
        lemma_quadrant_inside(t, n - 1);
        assert(c.size > 0);
        law_held_squares_apart(c);
        let a = squares_of_seq(s.subrange(0, n - 1));
        let b = c.squares();
        let all = squares_of_seq(p);
        assert(all == a + b);
        assert forall|m: int| 0 <= m < b.len() implies #[trigger] t.quadrant(n - 1).covers(b[m]) by {
            assert(c.covers(b[m]));
        }
        assert forall|m: int| 0 <= m < all.len() implies {
            let p = #[trigger] all[m];
            &&& 0 <= quadrant_of(t, p) < n
            &&& t.quadrant(quadrant_of(t, p)).covers(p)
        } by {
            if m < a.len() {
                assert(all[m] == a[m]);
            } else {
                assert(all[m] == b[m - a.len()]);
                lemma_quadrant_of(t, n - 1, all[m]);
            }
        }
        assert forall|m: int| 0 <= m < all.len() implies t.covers(#[trigger] all[m]) by {
            if m < a.len() {
                assert(all[m] == a[m]);
            } else {
                assert(all[m] == b[m - a.len()]);
                assert(c.covers(b[m - a.len()]));
            }
        }
        assert forall|m1: int, m2: int| 0 <= m1 < m2 < all.len() implies squares_apart(
            #[trigger] all[m1],
            #[trigger] all[m2],
        ) by {
            if m2 < a.len() {
                assert(all[m1] == a[m1] && all[m2] == a[m2]);
            } else if m1 >= a.len() {
                assert(all[m1] == b[m1 - a.len()] && all[m2] == b[m2 - a.len()]);
            } else {
                assert(all[m1] == a[m1]);
                assert(all[m2] == b[m2 - a.len()]);
                let q = quadrant_of(t, a[m1]);
                assert(t.quadrant(n - 1).covers(b[m2 - a.len()]));
                lemma_quadrants_apart(t, q, n - 1, all[m1], all[m2]);
            }
        }
    }
}

/// A square is among a run of siblings' squares exactly when it is among
/// one sibling's squares.
proof fn lemma_squares_of_seq_contains<const N: u32>(s: Seq<NodeModel<N>>, p: Placed<N>)
    ensures
        squares_of_seq(s).contains(p) <==> exists|j: int|
            0 <= j < s.len() && (#[trigger] s[j]).squares().contains(p),
    decreases s.len(),
{
    if s.len() > 0 {
        let pre = s.subrange(0, s.len() - 1);
        lemma_squares_of_seq_contains(pre, p);
        let a = squares_of_seq(pre);
        let b = s[s.len() - 1].squares();
        assert(squares_of_seq(s) == a + b);
        if squares_of_seq(s).contains(p) {
            let m = choose|m: int| 0 <= m < (a + b).len() && (a + b)[m] == p;
            if m < a.len() {
                assert(a[m] == p);
                let j = choose|j: int| 0 <= j < pre.len() && (#[trigger] pre[j]).squares().contains(p);
                assert(s[j] == pre[j]);
            } else {
                assert(b[m - a.len()] == p);
                assert(s[s.len() - 1].squares().contains(p));
            }
        }
        if exists|j: int| 0 <= j < s.len() && (#[trigger] s[j]).squares().contains(p) {
            let j = choose|j: int| 0 <= j < s.len() && (#[trigger] s[j]).squares().contains(p);
            if j < s.len() - 1 {
                assert(pre[j] == s[j]);
                assert(a.contains(p));
                let m = choose|m: int| 0 <= m < a.len() && a[m] == p;
                assert((a + b)[m] == p);
            } else {
                let m = choose|m: int| 0 <= m < b.len() && b[m] == p;
                assert((a + b)[a.len() + m] == p);
            }
        }
    }
}

/// Storing keeps every square whose key is not evicted, and the new key
/// holds the square the store reports.
pub proof fn law_store_keeps_squares<const N: u32>(t: NodeModel<N>, key: CacheKey<N>, time: u32)
    requires
        t.wf(),
    ensures
        ({
            let (n, r) = t.store(key, time);
            r matches Some(o) ==> {
                &&& n.squares().contains(Placed { key, x: o.x_range, y: o.y_range })
                &&& forall|p: Placed<N>| #[trigger]
                    t.squares().contains(p) && !o.dead.contains(p.key) ==> n.squares().contains(p)
            }
        }),
    decreases t.level, if t.content is Stored {
        1int
    } else {
        0int
    },
{
    let (n, r) = t.store(key, time);
    if key.spec_texture_size() > t.size {
    } else if t.stores_here(key) {
        let o = r->0;
        assert(n.squares()[0] == Placed { key, x: o.x_range, y: o.y_range });
        lemma_squares_keys(t);
        assert forall|p: Placed<N>| #[trigger]
            t.squares().contains(p) && !o.dead.contains(p.key) implies n.squares().contains(p) by {
            let m = choose|m: int| 0 <= m < t.squares().len() && t.squares()[m] == p;
            assert(t.items()[m] == p.key);
            assert(o.dead.contains(p.key));
        }
    } else {
        match t.content {
            ContentModel::Stored(old_key, _) => {
                let t2 = t.with_content(ContentModel::Split(Seq::empty()));
                assert(t2.wf());
                law_store_keeps_squares(t2, key, time);
                law_store_conserves_keys(t2, key, time);
                let o = r->0;
                let o2 = t2.store(key, time).1->0;
                assert(o.dead == o2.dead.push(old_key));
                assert forall|p: Placed<N>| #[trigger]
                    t.squares().contains(p) && !o.dead.contains(p.key) implies n.squares().contains(
                    p,
                ) by {
                    assert(t.squares()[0].key == old_key);
                    assert(o.dead[o.dead.len() - 1] == old_key);
                }
            },
            ContentModel::Split(s) => {
                if s.len() < 4 {
                    let child = t.quadrant(s.len() as int);
                    lemma_quadrant_wf(t, s.len() as int);
                    law_store_keeps_squares(child, key, time);
                    law_store_conserves_keys(child, key, time);
                    let (c, rc) = child.store(key, time);
                    assert(r == rc);
                    assert(n == t.with_content(ContentModel::Split(s.push(c))));
                    assert(s.push(c).subrange(0, s.len() as int) =~= s);
                    assert(n.squares() == squares_of_seq(s) + c.squares());
                    let o = r->0;
                    let np = Placed { key, x: o.x_range, y: o.y_range };
                    let k = choose|k: int| 0 <= k < c.squares().len() && c.squares()[k] == np;
                    assert(n.squares()[squares_of_seq(s).len() + k] == np);
                    assert forall|p: Placed<N>| #[trigger]
                        t.squares().contains(p) && !o.dead.contains(p.key) implies n.squares().contains(
                        p,
                    ) by {
                        let m = choose|m: int| 0 <= m < squares_of_seq(s).len() && squares_of_seq(s)[m] == p;
                        assert(n.squares()[m] == p);
                    }
                } else {
                    let idx = pick_child(s, key.spec_texture_size(), s.len()).1;
                    lemma_pick_child_range(s, key.spec_texture_size(), s.len());
                    let child = s[idx];
                    assert(child.wf());
                    law_store_keeps_squares(child, key, time);
                    law_store_conserves_keys(child, key, time);
                    let (c, rc) = child.store(key, time);
                    assert(r == rc);
                    let s2 = s.update(idx, c);
                    assert(n == t.with_content(ContentModel::Split(s2)));
                    assert(s2[idx] == c);
                    let o = r->0;
                    let np = Placed { key, x: o.x_range, y: o.y_range };
                    lemma_squares_of_seq_contains(s2, np);
                    assert(c.squares().contains(np));
                    assert forall|p: Placed<N>| #[trigger]
                        t.squares().contains(p) && !o.dead.contains(p.key) implies n.squares().contains(
                        p,
                    ) by {
                        lemma_squares_of_seq_contains(s, p);
                        lemma_squares_of_seq_contains(s2, p);
                        let j = choose|j: int| 0 <= j < s.len() && (#[trigger] s[j]).squares().contains(p);
                        if j == idx {
                            assert(c.squares().contains(p));
                        } else {
                            assert(s2[j] == s[j]);
                        }
                    }
                }
            },
        }
    }
}

/// The placement facts of `law_store_on_grid`, proved by induction on the level.
#[verifier::spinoff_prover]
#[verifier::rlimit(30)]
proof fn lemma_store_on_grid_product<const N: u32>(t: NodeModel<N>, key: CacheKey<N>, time: u32)
    requires
        t.wf(),
        t.size > 0,
    ensures
        t.store(key, time).1 matches Some(o) ==> {
            let side = o.x_range.1 - o.x_range.0 + 1;
            &&& 0 <= o.level <= t.level
            &&& side > 0
            &&& side * two_pow((t.level - o.level) as nat) == t.size
            &&& (o.x_range.0 - t.x0) % side == 0
            &&& (o.y_range.0 - t.y0) % side == 0
        },
    decreases t.level, if t.content is Stored {
        1int
    } else {
        0int
    },
{
    law_store_placement(t, key, time);
    if key.spec_texture_size() > t.size {
    } else if t.stores_here(key) {
        let o = t.store(key, time).1->0;
        assert(o.level == t.level);
        assert(two_pow((t.level - o.level) as nat) == 1);
        assert(o.x_range.0 - t.x0 == 0);
        assert(0int % t.size == 0);
    } else {
        lemma_half_divisible(t.size, t.level as nat);
        match t.content {
            ContentModel::Stored(old_key, _) => {
                let t2 = t.with_content(ContentModel::Split(Seq::empty()));
                assert(t2.wf());
                lemma_store_on_grid_product(t2, key, time);
                law_store_conserves_keys(t2, key, time);
                let o2 = t2.store(key, time).1->0;
                assert(t.store(key, time).1 == Some(StoreOutcome { dead: o2.dead.push(old_key), ..o2 }));
            },
            ContentModel::Split(s) => {
                let i = if s.len() < 4 {
                    s.len() as int
                } else {
                    lemma_pick_child_range(s, key.spec_texture_size(), s.len());
                    pick_child(s, key.spec_texture_size(), s.len()).1
                };
                let child = if s.len() < 4 {
                    t.quadrant(i)
                } else {
                    s[i]
                };
                if s.len() < 4 {
                    lemma_quadrant_wf(t, i);
                }
                assert(child.same_square(t.quadrant(i)));
                assert(child.wf());
                assert(child.size > 0);
                lemma_store_on_grid_product(child, key, time);
                law_store_placement(child, key, time);
                assert(t.store(key, time).1 == child.store(key, time).1);
                if let Some(o) = t.store(key, time).1 {
                    let side = o.x_range.1 - o.x_range.0 + 1;
                    let k = (child.level - o.level) as nat;
                    let pk = two_pow(k) as int;
                    assert(t.level - o.level == k + 1);
                    assert(two_pow((k + 1) as nat) == 2 * two_pow(k));
                    assert(side * pk == t.half());
                    assert(side * two_pow((t.level - o.level) as nat) == t.size) by (nonlinear_arith)
                        requires
                            side * pk == t.half(),
                            two_pow((t.level - o.level) as nat) == 2 * pk,
                            t.size == 2 * t.half(),
                    ;
                    let h = t.half();
                    let ax = (o.x_range.0 - child.x0) / side;
                    let ay = (o.y_range.0 - child.y0) / side;
                    vstd::arithmetic::div_mod::lemma_fundamental_div_mod(o.x_range.0 - child.x0, side);
                    vstd::arithmetic::div_mod::lemma_fundamental_div_mod(o.y_range.0 - child.y0, side);
                    let bx = ax + (i % 2) * pk;
                    let by_ = ay + (i / 2) * pk;
                    assert(o.x_range.0 - t.x0 == bx * side) by (nonlinear_arith)
                        requires
                            o.x_range.0 - child.x0 == side * ax,
                            child.x0 == t.x0 + (i % 2) * h,
                            h == side * pk,
                            bx == ax + (i % 2) * pk,
                    ;
                    assert(o.y_range.0 - t.y0 == by_ * side) by (nonlinear_arith)
                        requires
                            o.y_range.0 - child.y0 == side * ay,
                            child.y0 == t.y0 + (i / 2) * h,
                            h == side * pk,
                            by_ == ay + (i / 2) * pk,
                    ;
                    vstd::arithmetic::div_mod::lemma_mod_multiples_basic(bx, side);
                    vstd::arithmetic::div_mod::lemma_mod_multiples_basic(by_, side);
                }
            },
        }
    }
}

/// A stored key lands on the node's halving grid: its square's side is the
/// node's side halved once per level it descended, and its corner is a
/// whole number of such sides from the node's corner.
pub proof fn law_store_on_grid<const N: u32>(t: NodeModel<N>, key: CacheKey<N>, time: u32)
    requires
        t.wf(),
        t.size > 0,
    ensures
        t.store(key, time).1 matches Some(o) ==> {
            let side = o.x_range.1 - o.x_range.0 + 1;
            &&& 0 <= o.level <= t.level
            &&& side > 0
            &&& side * two_pow((t.level - o.level) as nat) == t.size
            &&& side == t.size / (two_pow((t.level - o.level) as nat) as int)
            &&& (o.x_range.0 - t.x0) % side == 0
            &&& (o.y_range.0 - t.y0) % side == 0
        },
{
    lemma_store_on_grid_product(t, key, time);
    if let Some(o) = t.store(key, time).1 {
        let d = (t.level - o.level) as nat;
        let side = o.x_range.1 - o.x_range.0 + 1;
        lemma_two_pow_positive(d);
        let pd = two_pow(d) as int;
        assert(side * pd == t.size);
        vstd::arithmetic::div_mod::lemma_div_by_multiple(side, pd);
    }
}


/// Every sibling's newest store time is at most the run's, which is at
/// most any bound on all of them.
proof fn lemma_max_newest<const N: u32>(s: Seq<NodeModel<N>>, m: u32)
    ensures
        forall|j: int| 0 <= j < s.len() ==> (#[trigger] s[j]).newest() <= max_newest_of_seq(s),
        (forall|j: int| 0 <= j < s.len() ==> (#[trigger] s[j]).newest() <= m) ==> max_newest_of_seq(s)
            <= m,
    decreases s.len(),
{
    if s.len() > 0 {
        let pre = s.subrange(0, s.len() - 1);
        lemma_max_newest(pre, m);
        assert forall|j: int| 0 <= j < pre.len() implies pre[j] == s[j] by {}
    }
}

/// A store at `time`, no earlier than any store time the node holds,
/// leaves the key held and `time` as the node's newest store time.
pub proof fn law_store_sets_newest<const N: u32>(t: NodeModel<N>, key: CacheKey<N>, time: u32)
    requires
        t.wf(),
        t.newest() <= time,
    ensures
        t.store(key, time).1 is Some ==> {
            &&& t.store(key, time).0.items().contains(key)
            &&& t.store(key, time).0.newest() == time
        },
    decreases t.level, if t.content is Stored {
        1int
    } else {
        0int
    },
{
    law_store_conserves_keys(t, key, time);
    if key.spec_texture_size() > t.size {
    } else if t.stores_here(key) {
    } else {
        match t.content {
            ContentModel::Stored(_, _) => {
                let t2 = t.with_content(ContentModel::Split(Seq::empty()));
                assert(t2.wf());
                assert(t2.newest() == 0);
                law_store_sets_newest(t2, key, time);
            },
            ContentModel::Split(s) => {
                lemma_max_newest(s, time);
                if s.len() < 4 {
                    let child = t.quadrant(s.len() as int);
                    lemma_quadrant_wf(t, s.len() as int);
                    assert(child.newest() == 0);
                    law_store_sets_newest(child, key, time);
                    law_store_conserves_keys(child, key, time);
                    let (c, rc) = child.store(key, time);
                    let s2 = s.push(c);
                    assert(s2.subrange(0, s2.len() - 1) =~= s);
                    assert(t.store(key, time).0 == t.with_content(ContentModel::Split(s2)));
                } else {
                    let idx = pick_child(s, key.spec_texture_size(), s.len()).1;
                    lemma_pick_child_range(s, key.spec_texture_size(), s.len());
                    let child = s[idx];
                    assert(child.wf());
                    law_store_sets_newest(child, key, time);
                    law_store_conserves_keys(child, key, time);
                    let (c, rc) = child.store(key, time);
                    let s2 = s.update(idx, c);
                    assert(t.store(key, time).0 == t.with_content(ContentModel::Split(s2)));
                    if rc is Some {
                        lemma_max_newest(s2, time);
                        assert forall|j: int| 0 <= j < s2.len() implies (#[trigger] s2[j]).newest()
                            <= time by {
                            if j != idx {
                                assert(s2[j] == s[j]);
                            }
                        }
                        assert(s2[idx].newest() == time);
                    }
                }
            },
        }
    }
}


/// The largest of a run of store times, `0` when there is none.
pub open spec fn latest(s: Seq<u32>) -> u32
    decreases s.len(),
{
    if s.len() == 0 {
        0
    } else {
        let a = latest(s.drop_last());
        if s.last() > a {
            s.last()
        } else {
            a
        }
    }
}

/// The store times of the keys held by a run of siblings, in order.
pub open spec fn times_of_seq<const N: u32>(s: Seq<NodeModel<N>>) -> Seq<u32>
    decreases s,
{
    if s.len() == 0 {
        Seq::empty()
    } else {
        times_of_seq(s.subrange(0, s.len() - 1)) + s[s.len() - 1].times()
    }
}

impl<const N: u32> NodeModel<N> {
    /// The store times of the keys this subtree holds, in the order of `items`.
    pub open spec fn times(self) -> Seq<u32>
        decreases self,
    {
        match self.content {
            ContentModel::Split(s) => times_of_seq(s),
            ContentModel::Stored(_, create_at) => seq![create_at],
        }
    }
}

/// No time of `s` is later than `latest(s)`.
pub proof fn lemma_latest_is_max(s: Seq<u32>)
    ensures
        forall|i: int| 0 <= i < s.len() ==> #[trigger] s[i] <= latest(s),
    decreases s.len(),
{
    if s.len() > 0 {
        lemma_latest_is_max(s.drop_last());
        assert forall|i: int| 0 <= i < s.len() implies #[trigger] s[i] <= latest(s) by {
            if i < s.len() - 1 {
                assert(s[i] == s.drop_last()[i]);
            }
        }
    }
}

proof fn lemma_latest_concat(a: Seq<u32>, b: Seq<u32>)
    ensures
        latest(a + b) == if latest(b) > latest(a) {
            latest(b)
        } else {
            latest(a)
        },
    decreases b.len(),
{
    if b.len() == 0 {
        assert(a + b =~= a);
    } else {
        lemma_latest_concat(a, b.drop_last());
        assert((a + b).drop_last() =~= a + b.drop_last());
        assert((a + b).last() == b.last());
    }
}

/// The newest store time of a node is the latest store time among the keys
/// it holds (`0` when it holds none), whatever texture size asks.
pub proof fn law_newest_is_latest_time<const N: u32>(t: NodeModel<N>)
    ensures
        t.newest() == latest(t.times()),
    decreases t, 5int,
{
    match t.content {
        ContentModel::Split(s) => {
            lemma_newest_of_seq(s, s.len() as int);
            assert(s.subrange(0, s.len() as int) =~= s);
            assert(t.newest() == max_newest_of_seq(s.subrange(0, s.len() as int)));
            assert(t.times() == times_of_seq(s.subrange(0, s.len() as int)));
        },
        ContentModel::Stored(_, c) => {
            assert(t.times().drop_last() =~= Seq::<u32>::empty());
            assert(latest(Seq::<u32>::empty()) == 0);
            assert(t.times().last() == c);
        },
    }
}

proof fn lemma_newest_of_seq<const N: u32>(s: Seq<NodeModel<N>>, n: int)
    requires
        0 <= n <= s.len(),
    ensures
        max_newest_of_seq(s.subrange(0, n)) == latest(times_of_seq(s.subrange(0, n))),
    decreases s, n,
{
    if n > 0 {
        let p = s.subrange(0, n);
        assert(p.subrange(0, n - 1) =~= s.subrange(0, n - 1));
        assert(p[n - 1] == s[n - 1]);
        lemma_newest_of_seq(s, n - 1);
        law_newest_is_latest_time(s[n - 1]);
        lemma_latest_concat(times_of_seq(s.subrange(0, n - 1)), s[n - 1].times());
    } else {
        assert(s.subrange(0, 0).len() == 0);
    }
}

/// The scan over the first `n` children ends on one of them whose `oldest`
/// is the smallest among them.
proof fn lemma_pick_child_min<const N: u32>(s: Seq<NodeModel<N>>, size: u32, n: nat)
    requires
        0 < n <= s.len(),
    ensures
        0 <= pick_child(s, size, n).1 < n,
        pick_child(s, size, n).0 == s[pick_child(s, size, n).1].oldest(size),
        forall|j: int| 0 <= j < n ==> pick_child(s, size, n).0 <= #[trigger] s[j].oldest(size),
        forall|j: int| 0 <= j < pick_child(s, size, n).1 ==> pick_child(s, size, n).0 < #[trigger] s[j].oldest(size),
    decreases n,
{
    if n > 1 {
        lemma_pick_child_min(s, size, (n - 1) as nat);
    } else {
        assert(pick_child(s, size, 0) == (u32::MAX, 0int));
    }
}

/// A node whose four quadrants all exist stores a key that belongs below it
/// in the quadrant whose `oldest` for the key's size is smallest of the
/// four (the first of them on a tie), so it evicts the least recently
/// stored glyphs, and a quadrant with free room (oldest `0`) is taken
/// before any whose glyphs would go; the other quadrants stay as they were.
pub proof fn law_full_node_stores_in_oldest_child<const N: u32>(
    t: NodeModel<N>,
    s: Seq<NodeModel<N>>,
    key: CacheKey<N>,
    time: u32,
)
    requires
        t.wf(),
        t.content == ContentModel::Split(s),
        s.len() == 4,
        key.spec_texture_size() <= t.size,
        !t.stores_here(key),
    ensures
        exists|c: int|
            #![trigger s[c]]
            0 <= c < 4 && (forall|j: int|
                0 <= j < 4 ==> s[c].oldest(key.spec_texture_size()) <= #[trigger] s[j].oldest(
                    key.spec_texture_size(),
                )) && (forall|j: int|
                0 <= j < c ==> s[c].oldest(key.spec_texture_size()) < #[trigger] s[j].oldest(
                    key.spec_texture_size(),
                )) && t.store(key, time).0 == t.with_content(
                ContentModel::Split(s.update(c, s[c].store(key, time).0)),
            ) && t.store(key, time).1 == s[c].store(key, time).1,
{
    let size = key.spec_texture_size();
    lemma_pick_child_min(s, size, 4);
    let c = pick_child(s, size, 4).1;
    assert(s[c].wf());
    assert(s[c].same_square(t.quadrant(c)));
    assert(forall|j: int| 0 <= j < 4 ==> s[c].oldest(size) <= #[trigger] s[j].oldest(size));
    assert(forall|j: int| 0 <= j < c ==> s[c].oldest(size) < #[trigger] s[j].oldest(size));
}

/// A subtree with a free place for a key of side `size`: a node below which
/// such a key would go that still lacks one of its quadrants, or has a
/// quadrant with a free place.
pub open spec fn has_free_place<const N: u32>(t: NodeModel<N>, size: u32) -> bool
    decreases t,
{
    match t.content {
        ContentModel::Split(s) => {
            &&& size <= t.half()
            &&& t.level > 0
            &&& (s.len() < 4 || exists|i: int| 0 <= i < s.len() && has_free_place(#[trigger] s[i], size))
        },
        ContentModel::Stored(_, _) => false,
    }
}

/// A subtree with a free place for a key reports `oldest` `0` for it, the
/// least any subtree can report, so a full node picks such a quadrant
/// before any whose glyphs would be evicted.
pub proof fn law_free_place_is_oldest<const N: u32>(t: NodeModel<N>, size: u32)
    requires
        t.wf(),
        has_free_place(t, size),
    ensures
        t.oldest(size) == 0,
    decreases t,
{
    if let ContentModel::Split(s) = t.content {
        if s.len() >= 4 {
            let i = choose|i: int| 0 <= i < s.len() && has_free_place(#[trigger] s[i], size);
            law_free_place_is_oldest(s[i], size);
            lemma_min_oldest_le(s, size, i);
        }
    }
}

/// The smallest `oldest` of a run of children is at most that of each.
proof fn lemma_min_oldest_le<const N: u32>(s: Seq<NodeModel<N>>, size: u32, i: int)
    requires
        0 <= i < s.len(),
    ensures
        min_oldest_of_seq(s, size) <= s[i].oldest(size),
    decreases s.len(),
{
    if s.len() > 1 && i < s.len() - 1 {
        lemma_min_oldest_le(s.subrange(0, s.len() - 1), size, i);
        assert(s.subrange(0, s.len() - 1)[i] == s[i]);
    }
}

/// Storing a key that fits into an empty node evicts nothing.
proof fn lemma_empty_store_evicts_nothing<const N: u32>(t: NodeModel<N>, key: CacheKey<N>, time: u32)
    requires
        t.wf(),
        t.content == ContentModel::<N>::Split(Seq::empty()),
        key.spec_texture_size() <= t.size,
    ensures
        t.store(key, time).1 matches Some(o) && o.dead.len() == 0,
    decreases t.level,
{
    if t.stores_here(key) {
        assert(t.items() =~= Seq::<CacheKey<N>>::empty());
    } else {
        let q = t.quadrant(0);
        lemma_quadrant_wf(t, 0);
        assert(key.spec_texture_size() <= q.size);
        lemma_empty_store_evicts_nothing(q, key, time);
    }
}

/// A node below which a key belongs, and that still lacks one of its
/// quadrants, stores the key in a new quadrant next in order and evicts
/// nothing; the quadrants it had stay as they were.
pub proof fn law_missing_quadrant_takes_key<const N: u32>(
    t: NodeModel<N>,
    s: Seq<NodeModel<N>>,
    key: CacheKey<N>,
    time: u32,
)
    requires
        t.wf(),
        t.content == ContentModel::Split(s),
        s.len() < 4,
        key.spec_texture_size() <= t.size,
        !t.stores_here(key),
    ensures
        t.store(key, time).1 matches Some(o) && o.dead.len() == 0,
        t.store(key, time).0 == t.with_content(
            ContentModel::Split(s.push(t.quadrant(s.len() as int).store(key, time).0)),
        ),
{
    let q = t.quadrant(s.len() as int);
    lemma_quadrant_wf(t, s.len() as int);
    lemma_empty_store_evicts_nothing(q, key, time);
}

/// A subtree with no room left for a key of side `size`: a stored key, or
/// quadrants that are all present (or, for a key that would be stored at
/// this node, at least one), each of them again without room.
pub open spec fn packed_for<const N: u32>(t: NodeModel<N>, size: u32) -> bool
    decreases t,
{
    match t.content {
        ContentModel::Split(s) => {
            &&& s.len() > 0
            &&& (t.half() < size || s.len() >= 4)
            &&& forall|i: int| 0 <= i < s.len() ==> packed_for(#[trigger] s[i], size)
        },
        ContentModel::Stored(_, _) => true,
    }
}

/// What `oldest` reports for a key of side `size` is never later than a
/// store time the subtree holds; for a subtree with no room left it is the
/// earliest of those times, the age of the glyphs a store there evicts
/// first.
pub proof fn law_oldest_is_earliest_time<const N: u32>(t: NodeModel<N>, size: u32)
    ensures
        forall|k: int| 0 <= k < t.times().len() ==> t.oldest(size) <= #[trigger] t.times()[k],
        packed_for(t, size) ==> exists|k: int| 0 <= k < t.times().len() && #[trigger] t.times()[k] == t.oldest(size),
    decreases t, 5int,
{
    match t.content {
        ContentModel::Split(s) => {
            lemma_oldest_of_seq(s, size, s.len() as int);
            assert(s.subrange(0, s.len() as int) =~= s);
            assert(t.times() == times_of_seq(s.subrange(0, s.len() as int)));
            if packed_for(t, size) {
                assert forall|i: int| 0 <= i < s.len() implies packed_for(#[trigger] s[i], size) by {}
            }
        },
        ContentModel::Stored(_, c) => {
            assert(t.times()[0] == c);
        },
    }
}

proof fn lemma_oldest_of_seq<const N: u32>(s: Seq<NodeModel<N>>, size: u32, n: int)
    requires
        0 <= n <= s.len(),
    ensures
        forall|k: int|
            0 <= k < times_of_seq(s.subrange(0, n)).len() ==> min_oldest_of_seq(s.subrange(0, n), size)
                <= #[trigger] times_of_seq(s.subrange(0, n))[k],
        n > 0 && (forall|i: int| 0 <= i < n ==> packed_for(#[trigger] s[i], size)) ==> exists|k: int|
            0 <= k < times_of_seq(s.subrange(0, n)).len() && #[trigger] times_of_seq(s.subrange(0, n))[k]
                == min_oldest_of_seq(s.subrange(0, n), size),
    decreases s, n,
{
    if n > 0 {
        let p = s.subrange(0, n);
        let q = s.subrange(0, n - 1);
        assert(p.subrange(0, n - 1) =~= q);
        assert(p[n - 1] == s[n - 1]);
        lemma_oldest_of_seq(s, size, n - 1);
        law_oldest_is_earliest_time(s[n - 1], size);
        let tq = times_of_seq(q);
        let tl = s[n - 1].times();
        assert(times_of_seq(p) == tq + tl);
        let m = min_oldest_of_seq(p, size);
        let a = min_oldest_of_seq(q, size);
        let b = s[n - 1].oldest(size);
        if n == 1 {
            assert(q.len() == 0);
            assert(tq =~= Seq::<u32>::empty());
            assert(m == b);
        } else {
            assert(m == (if b < a { b } else { a }));
        }
        assert forall|k: int| 0 <= k < (tq + tl).len() implies m <= #[trigger] (tq + tl)[k] by {
            if k < tq.len() {
                assert((tq + tl)[k] == tq[k]);
            } else {
                assert((tq + tl)[k] == tl[k - tq.len()]);
            }
        }
        if forall|i: int| 0 <= i < n ==> packed_for(#[trigger] s[i], size) {
            assert(packed_for(s[n - 1], size));
            if m == b {
                let j = choose|j: int| 0 <= j < tl.len() && #[trigger] tl[j] == b;
                assert((tq + tl)[tq.len() + j] == b);
            } else {
                assert(n > 1);
                assert(forall|i: int| 0 <= i < n - 1 ==> packed_for(#[trigger] s[i], size));
                let j = choose|j: int| 0 <= j < tq.len() && #[trigger] tq[j] == a;
                assert((tq + tl)[j] == a);
            }
        }
    }
}

} // verus!
