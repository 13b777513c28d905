//! The blocks an image is cut into and the transformations that map one
//! block onto another.
use vstd::prelude::*;

verus! {

/// A rotation of a block by a multiple of a quarter turn.
#[derive(Copy, Clone, PartialEq, Eq, Hash, Debug, PartialOrd, Ord, Structural)]
pub enum Rotation {
    Zero,
    Quarter,
    Half,
    ThreeQuarter,
}

/// A source block: where it lies in the image, its size, and how it is turned
/// before being mapped onto a range block.
#[derive(Copy, Clone, Eq, Hash, Debug)]
pub struct DomainBlockLocation {
    pub pos: (usize, usize),
    pub rotation: Rotation,
    pub flipped: bool,
    pub size: (usize, usize),
}

/// A destination block: where it lies in the image and its size.
#[derive(Copy, Clone, Eq, Hash, Debug)]
pub struct RangeBlockLocation {
    pub pos: (usize, usize),
    pub size: (usize, usize),
}

/// The map of a range block: the domain block it is taken from, then the
/// contrast and the brightness applied to it. Contrast and brightness are
/// held as the IEEE-754 bit patterns of the `f32` values
/// (`f32::to_bits`), so that they are stored and restored exactly.
pub type Transformation = (DomainBlockLocation, u32, u32);

impl PartialEq for DomainBlockLocation {
    fn eq(&self, other: &Self) -> (r: bool) {
        self.pos.0 == other.pos.0 && self.pos.1 == other.pos.1 && self.rotation == other.rotation
            && self.flipped == other.flipped && self.size.0 == other.size.0 && self.size.1
            == other.size.1
    }
}

impl vstd::std_specs::cmp::PartialEqSpecImpl for DomainBlockLocation {
    open spec fn obeys_eq_spec() -> bool {
        true
    }

    open spec fn eq_spec(&self, other: &Self) -> bool {
        *self == *other
    }
}

impl PartialEq for RangeBlockLocation {
    fn eq(&self, other: &Self) -> (r: bool) {
        self.pos.0 == other.pos.0 && self.pos.1 == other.pos.1 && self.size.0 == other.size.0
            && self.size.1 == other.size.1
    }
}

impl vstd::std_specs::cmp::PartialEqSpecImpl for RangeBlockLocation {
    open spec fn obeys_eq_spec() -> bool {
        true
    }

    open spec fn eq_spec(&self, other: &Self) -> bool {
        *self == *other
    }
}

impl Default for Rotation {
    fn default() -> (r: Rotation)
        ensures
            r == Rotation::Zero,
    {
        Rotation::Zero
    }
}

impl Default for DomainBlockLocation {
    fn default() -> (r: DomainBlockLocation)
        ensures
            r == (DomainBlockLocation {
                pos: (0, 0),
                rotation: Rotation::Zero,
                flipped: false,
                size: (0, 0),
            }),
    {
        DomainBlockLocation { pos: (0, 0), rotation: Rotation::Zero, flipped: false, size: (0, 0) }
    }
}

impl Default for RangeBlockLocation {
    fn default() -> (r: RangeBlockLocation)
        ensures
            r == (RangeBlockLocation { pos: (0, 0), size: (0, 0) }),
    {
        RangeBlockLocation { pos: (0, 0), size: (0, 0) }
    }
}

/// The map that a sequence of entries describes when they are inserted in
/// order, a later entry replacing an earlier one with the same key.
pub open spec fn map_of_entries<K, V>(s: Seq<(K, V)>) -> Map<K, V>
    decreases s.len(),
{
    if s.len() == 0 {
        Map::empty()
    } else {
        map_of_entries(s.drop_last()).insert(s.last().0, s.last().1)
    }
}

/// No key occurs twice among the entries.
pub open spec fn keys_distinct<K, V>(s: Seq<(K, V)>) -> bool {
    forall|i: int, j: int| 0 <= i < j < s.len() ==> s[i].0 != s[j].0
}

/// The keys of a map of entries are the keys of the entries.
pub proof fn lemma_map_of_entries_dom<K, V>(s: Seq<(K, V)>, k: K)
    ensures
        map_of_entries(s).dom().contains(k) <==> exists|i: int| 0 <= i < s.len() && s[i].0 == k,
    decreases s.len(),
{
    if s.len() > 0 {
        lemma_map_of_entries_dom(s.drop_last(), k);
        if map_of_entries(s.drop_last()).dom().contains(k) {
            let i = choose|i: int| 0 <= i < s.drop_last().len() && s.drop_last()[i].0 == k;
            assert(s[i].0 == k);
        }
        if exists|i: int| 0 <= i < s.len() && s[i].0 == k {
            let i = choose|i: int| 0 <= i < s.len() && s[i].0 == k;
            if i < s.len() - 1 {
                assert(s.drop_last()[i].0 == k);
            }
        }
    }
}

/// With distinct keys, the value at a key is the value of its entry.
pub proof fn lemma_map_of_entries_index<K, V>(s: Seq<(K, V)>, i: int)
    requires
        keys_distinct(s),
        0 <= i < s.len(),
    ensures
        map_of_entries(s).dom().contains(s[i].0),
        map_of_entries(s)[s[i].0] == s[i].1,
    decreases s.len(),
{
    if i < s.len() - 1 {
        let t = s.drop_last();
        assert(t[i] == s[i]);
        assert(keys_distinct(t));
        lemma_map_of_entries_index(t, i);
        assert(s.last().0 != s[i].0);
    }
}

/// With distinct keys, replacing the value of an entry replaces the value at
/// its key.
proof fn lemma_map_of_entries_update<K, V>(s: Seq<(K, V)>, i: int, v: V)
    requires
        keys_distinct(s),
        0 <= i < s.len(),
    ensures
        map_of_entries(s.update(i, (s[i].0, v))) == map_of_entries(s).insert(s[i].0, v),
    decreases s.len(),
{
    let u = s.update(i, (s[i].0, v));
    if i == s.len() - 1 {
        assert(u.drop_last() =~= s.drop_last());
        assert(map_of_entries(u) =~= map_of_entries(s).insert(s[i].0, v));
    } else {
        let t = s.drop_last();
        assert(keys_distinct(t));
        assert(u.drop_last() =~= t.update(i, (s[i].0, v)));
        lemma_map_of_entries_update(t, i, v);
        assert(s.last().0 != s[i].0);
        assert(map_of_entries(u) =~= map_of_entries(s).insert(s[i].0, v));
    }
}

/// The transformation chosen for each range block.
pub struct Mappings {
    entries: Vec<(RangeBlockLocation, Transformation)>,
}

impl View for Mappings {
    type V = Map<RangeBlockLocation, Transformation>;

    closed spec fn view(&self) -> Map<RangeBlockLocation, Transformation> {
        map_of_entries(self.entries@)
    }
}

impl Mappings {
    /// No range block occurs twice among the entries. Every value of the type
    /// keeps this.
    #[verifier::type_invariant]
    pub closed spec fn wf(&self) -> bool {
        keys_distinct(self.entries@)
    }

    /// No transformation yet.
    pub fn new() -> (m: Self)
        ensures
            m.wf(),
            m@ == Map::<RangeBlockLocation, Transformation>::empty(),
    {
        Mappings { entries: Vec::new() }
    }

    /// The number of range blocks that have a transformation.
    pub fn len(&self) -> (r: usize)
        ensures
            r == self@.len(),
    {
        proof {
            use_type_invariant(self);
            self.lemma_len();
        }
        self.entries.len()
    }

    /// The number of entries is the number of keys.
    proof fn lemma_len(&self)
        requires
            self.wf(),
        ensures
            self@.len() == self.entries@.len(),
            self@.dom().finite(),
        decreases self.entries@.len(),
    {
        let s = self.entries@;
        assert(self@ == map_of_entries(s));
        lemma_entries_len(s);
    }

    /// The transformation of range block `k`, if it has one.
    pub fn get(&self, k: &RangeBlockLocation) -> (r: Option<&Transformation>)
        ensures
            r is Some <==> self@.dom().contains(*k),
            r matches Some(v) ==> *v == self@[*k],
    {
        proof {
            use_type_invariant(self);
        }
        let mut i: usize = 0;
        while i < self.entries.len()
            invariant
                self.wf(),
                i <= self.entries@.len(),
                forall|j: int| 0 <= j < i ==> self.entries@[j].0 != *k,
            decreases self.entries@.len() - i,
        {
            if self.entries[i].0 == *k {
                proof {
                    lemma_map_of_entries_index(self.entries@, i as int);
                }
                return Some(&self.entries[i].1);
            }
            i = i + 1;
        }
        proof {
            lemma_map_of_entries_dom(self.entries@, *k);
        }
        None
    }

    /// Sets the transformation of range block `k`, replacing any earlier one.
    pub fn insert(&mut self, k: RangeBlockLocation, v: Transformation)
        ensures
            final(self).wf(),
            final(self)@ == old(self)@.insert(k, v),
    {
        proof {
            use_type_invariant(&*self);
        }
        let mut entries: Vec<(RangeBlockLocation, Transformation)> = Vec::new();
        std::mem::swap(&mut entries, &mut self.entries);
        let mut i: usize = 0;
        while i < entries.len()
            invariant
                keys_distinct(entries@),
                entries@ == old(self).entries@,
                i <= entries@.len(),
                forall|j: int| 0 <= j < i ==> entries@[j].0 != k,
            decreases entries@.len() - i,
        {
            if entries[i].0 == k {
                proof {
                    lemma_map_of_entries_update(entries@, i as int, v);
                }
                entries.set(i, (k, v));
                self.entries = entries;
                return;
            }
            i = i + 1;
        }
        entries.push((k, v));
        assert(entries@.drop_last() == old(self).entries@);
        self.entries = entries;
    }

    /// Every range block with its transformation, in the order they were
    /// first inserted.
    pub fn entries(&self) -> (r: Vec<(RangeBlockLocation, Transformation)>)
        ensures
            keys_distinct(r@),
            map_of_entries(r@) == self@,
    {
        proof {
            use_type_invariant(self);
        }
        let mut r: Vec<(RangeBlockLocation, Transformation)> = Vec::new();
        let mut i: usize = 0;
        while i < self.entries.len()
            invariant
                i <= self.entries@.len(),
                r@ == self.entries@.subrange(0, i as int),
            decreases self.entries@.len() - i,
        {
            r.push(self.entries[i]);
            i = i + 1;
            assert(r@ =~= self.entries@.subrange(0, i as int));
        }
        assert(r@ =~= self.entries@);
        r
    }
}

/// A map of distinct entries has as many keys as entries.
pub proof fn lemma_entries_len<K, V>(s: Seq<(K, V)>)
    requires
        keys_distinct(s),
    ensures
        map_of_entries(s).len() == s.len(),
        map_of_entries(s).dom().finite(),
    decreases s.len(),
{
    if s.len() > 0 {
        let t = s.drop_last();
        assert(keys_distinct(t));
        lemma_entries_len(t);
        lemma_map_of_entries_dom(t, s.last().0);
        if map_of_entries(t).dom().contains(s.last().0) {
            let i = choose|i: int| 0 <= i < t.len() && t[i].0 == s.last().0;
            assert(s[i].0 == s[s.len() - 1].0);
        }
    }
}

/// A two-dimensional array of `rows` rows and `cols` columns, stored row
/// by row.
pub struct Arr<T> {
    rows: usize,
    cols: usize,
    data: Vec<T>,
}

/// The abstract content of an array: its dimensions and its cells row by
/// row.
pub struct ArrView<T> {
    pub rows: nat,
    pub cols: nat,
    pub cells: Seq<T>,
}

impl<T> ArrView<T> {
    /// The cell in row `i` and column `j`.
    pub open spec fn at(self, i: int, j: int) -> T {
        self.cells[i * self.cols + j]
    }

    /// The cells and the dimensions agree.
    pub open spec fn wf(self) -> bool {
        self.cells.len() == self.rows * self.cols
    }
}

impl<T> View for Arr<T> {
    type V = ArrView<T>;

    closed spec fn view(&self) -> ArrView<T> {
        ArrView { rows: self.rows as nat, cols: self.cols as nat, cells: self.data@ }
    }
}

/// Two arrays of the same dimensions with the same cells.
pub open spec fn same_cells<T>(a: ArrView<T>, b: ArrView<T>) -> bool {
    &&& a.rows == b.rows
    &&& a.cols == b.cols
    &&& forall|i: int, j: int| 0 <= i < a.rows && 0 <= j < a.cols ==> #[trigger] a.at(i, j) == b.at(i, j)
}

/// The array `a` turned by `rot`.
pub open spec fn is_rotation<T>(a: ArrView<T>, rot: Rotation, out: ArrView<T>) -> bool {
    let (h, w) = (a.rows as int, a.cols as int);
    match rot {
        Rotation::Zero => same_cells(out, a),
        Rotation::Quarter => out.rows == w && out.cols == h && forall|i: int, j: int|
            0 <= i < w && 0 <= j < h ==> #[trigger] out.at(i, j) == a.at(h - j - 1, i),
        Rotation::ThreeQuarter => out.rows == w && out.cols == h && forall|i: int, j: int|
            0 <= i < w && 0 <= j < h ==> #[trigger] out.at(i, j) == a.at(j, w - i - 1),
        Rotation::Half => out.rows == h && out.cols == w && forall|i: int, j: int|
            0 <= i < h && 0 <= j < w ==> #[trigger] out.at(i, j) == a.at(h - i - 1, w - j - 1),
    }
}

/// The cells of `a` in the block `b`.
pub open spec fn is_block_of<T>(a: ArrView<T>, b: RangeBlockLocation, out: ArrView<T>) -> bool {
    &&& out.rows == b.size.0
    &&& out.cols == b.size.1
    &&& forall|i: int, j: int|
        0 <= i < b.size.0 && 0 <= j < b.size.1 ==> #[trigger] out.at(i, j) == a.at(
            b.pos.0 + i,
            b.pos.1 + j,
        )
}

/// The block `b` lies within an array of `rows` rows and `cols` columns.
pub open spec fn block_within(b: RangeBlockLocation, rows: nat, cols: nat) -> bool {
    &&& b.pos.0 + b.size.0 <= rows
    &&& b.pos.1 + b.size.1 <= cols
}

/// `i * c + j` lies below `r * c` for a cell `(i, j)` of an `r` by `c`
/// array.
pub proof fn lemma_cell_index(i: int, j: int, r: int, c: int)
    requires
        0 <= i < r,
        0 <= j < c,
    ensures
        0 <= i * c + j < r * c,
        i * c <= (r - 1) * c,
{
    vstd::arithmetic::mul::lemma_mul_inequality(i, r - 1, c);
    vstd::arithmetic::mul::lemma_mul_is_distributive_sub_other_way(c, r, 1);
    vstd::arithmetic::mul::lemma_mul_nonnegative(i, c);
}

impl<T: Copy> Arr<T> {
    /// The array of `rows` rows and `cols` columns whose cells, row by row,
    /// are `data`.
    pub fn from_shape_vec(rows: usize, cols: usize, data: Vec<T>) -> (r: Self)
        requires
            data@.len() == rows * cols,
        ensures
            r@.rows == rows,
            r@.cols == cols,
            r@.cells == data@,
            r@.wf(),
    {
        Arr { rows, cols, data }
    }

    /// The number of rows and of columns.
    pub fn dim(&self) -> (r: (usize, usize))
        ensures
            r.0 == self@.rows,
            r.1 == self@.cols,
    {
        (self.rows, self.cols)
    }

    /// The cells, row by row.
    pub fn data(&self) -> (r: &Vec<T>)
        ensures
            r@ == self@.cells,
    {
        &self.data
    }

    /// The cell in row `i` and column `j`.
    pub fn get(&self, i: usize, j: usize) -> (r: T)
        requires
            self@.wf(),
            i < self@.rows,
            j < self@.cols,
        ensures
            r == self@.at(i as int, j as int),
    {
        let n = self.data.len();
        proof {
            lemma_cell_index(i as int, j as int, self.rows as int, self.cols as int);
        }
        self.data[i * self.cols + j]
    }

    /// Replaces the cell in row `i` and column `j` with `v`.
    pub fn set(&mut self, i: usize, j: usize, v: T)
        requires
            old(self)@.wf(),
            i < old(self)@.rows,
            j < old(self)@.cols,
        ensures
            final(self)@.rows == old(self)@.rows,
            final(self)@.cols == old(self)@.cols,
            final(self)@.cells == old(self)@.cells.update(i * old(self)@.cols + j, v),
            final(self)@.wf(),
    {
        proof {
            lemma_cell_index(i as int, j as int, self.rows as int, self.cols as int);
        }
        let n = self.data.len();
        let k = i * self.cols + j;
        self.data.set(k, v);
    }
}

/// The array `img` turned by `rot`: a quarter turn maps cell `(i, j)` of the
/// result to cell `(h - j - 1, i)` of `img`, a half turn to
/// `(h - i - 1, w - j - 1)`, and three quarters to `(j, w - i - 1)`.
pub fn rotate_block<T: Copy>(img: &Arr<T>, rot: Rotation) -> (r: Arr<T>)
    requires
        img@.wf(),
    ensures
        r@.wf(),
        is_rotation(img@, rot, r@),
{
    let (h, w) = img.dim();
    let (rows, cols) = match rot {
        Rotation::Zero => (h, w),
        Rotation::Quarter => (w, h),
        Rotation::ThreeQuarter => (w, h),
        Rotation::Half => (h, w),
    };
    proof {
        vstd::arithmetic::mul::lemma_mul_is_commutative(h as int, w as int);
    }
    let mut data: Vec<T> = Vec::new();
    let mut i: usize = 0;
    while i < rows
        invariant
            img@.wf(),
            h == img@.rows,
            w == img@.cols,
            rows * cols == h * w,
            rot == Rotation::Zero || rot == Rotation::Half ==> rows == h && cols == w,
            rot == Rotation::Quarter || rot == Rotation::ThreeQuarter ==> rows == w && cols == h,
            i <= rows,
            data@.len() == i * cols,
            forall|a: int, b: int|
                0 <= a < i && 0 <= b < cols ==> #[trigger] data@[a * cols + b] == rotated_cell(
                    img@,
                    rot,
                    a,
                    b,
                ),
        decreases rows - i,
    {
        let mut j: usize = 0;
        while j < cols
            invariant
                img@.wf(),
                h == img@.rows,
                w == img@.cols,
                rows * cols == h * w,
                rot == Rotation::Zero || rot == Rotation::Half ==> rows == h && cols == w,
                rot == Rotation::Quarter || rot == Rotation::ThreeQuarter ==> rows == w && cols
                    == h,
                i < rows,
                j <= cols,
                data@.len() == i * cols + j,
                forall|a: int, b: int|
                    0 <= a < i && 0 <= b < cols ==> #[trigger] data@[a * cols + b] == rotated_cell(
                        img@,
                        rot,
                        a,
                        b,
                    ),
                forall|b: int| 0 <= b < j ==> #[trigger] data@[i * cols + b] == rotated_cell(
                    img@,
                    rot,
                    i as int,
                    b,
                ),
            decreases cols - j,
        {
            let v = match rot {
                Rotation::Zero => img.get(i, j),
                Rotation::Quarter => img.get(h - j - 1, i),
                Rotation::ThreeQuarter => img.get(j, w - i - 1),
                Rotation::Half => img.get(h - i - 1, w - j - 1),
            };
            proof {
                assert forall|a: int, b: int|
                    0 <= a < i && 0 <= b < cols implies #[trigger] data@.push(v)[a * cols + b]
                    == rotated_cell(img@, rot, a, b) by {
                    lemma_cell_index(a, b, i as int, cols as int);
                }
            }
            data.push(v);
            j = j + 1;
        }
        proof {
            vstd::arithmetic::mul::lemma_mul_is_distributive_add_other_way(cols as int, i as int, 1);
            assert forall|a: int, b: int|
                0 <= a < i + 1 && 0 <= b < cols implies #[trigger] data@[a * cols + b]
                == rotated_cell(img@, rot, a, b) by {
                if a == i {
                } else {
                }
            }
        }
        i = i + 1;
    }
    let r = Arr { rows, cols, data };
    proof {
        assert forall|a: int, b: int| 0 <= a < rows && 0 <= b < cols implies #[trigger] r@.at(a, b)
            == rotated_cell(img@, rot, a, b) by {}
    }
    r
}

/// The cell of `a` that lands in cell `(i, j)` when `a` is turned by `rot`.
pub open spec fn rotated_cell<T>(a: ArrView<T>, rot: Rotation, i: int, j: int) -> T {
    let (h, w) = (a.rows as int, a.cols as int);
    match rot {
        Rotation::Zero => a.at(i, j),
        Rotation::Quarter => a.at(h - j - 1, i),
        Rotation::ThreeQuarter => a.at(j, w - i - 1),
        Rotation::Half => a.at(h - i - 1, w - j - 1),
    }
}

/// The cells of `img` in the range block `range_block`.
pub fn get_rangeblock<T: Copy>(img: &Arr<T>, range_block: RangeBlockLocation) -> (r: Arr<T>)
    requires
        img@.wf(),
        block_within(range_block, img@.rows, img@.cols),
    ensures
        r@.wf(),
        is_block_of(img@, range_block, r@),
{
    let (rows, cols) = range_block.size;
    let mut data: Vec<T> = Vec::new();
    let mut i: usize = 0;
    while i < rows
        invariant
            img@.wf(),
            block_within(range_block, img@.rows, img@.cols),
            (rows, cols) == range_block.size,
            i <= rows,
            data@.len() == i * cols,
            forall|a: int, b: int|
                0 <= a < i && 0 <= b < cols ==> #[trigger] data@[a * cols + b] == img@.at(
                    range_block.pos.0 + a,
                    range_block.pos.1 + b,
                ),
        decreases rows - i,
    {
        let mut j: usize = 0;
        while j < cols
            invariant
                img@.wf(),
                block_within(range_block, img@.rows, img@.cols),
                (rows, cols) == range_block.size,
                i < rows,
                j <= cols,
                data@.len() == i * cols + j,
                forall|a: int, b: int|
                    0 <= a < i && 0 <= b < cols ==> #[trigger] data@[a * cols + b] == img@.at(
                        range_block.pos.0 + a,
                        range_block.pos.1 + b,
                    ),
                forall|b: int| 0 <= b < j ==> #[trigger] data@[i * cols + b] == img@.at(
                    range_block.pos.0 + i,
                    range_block.pos.1 + b,
                ),
            decreases cols - j,
        {
            let v = img.get(range_block.pos.0 + i, range_block.pos.1 + j);
            proof {
                assert forall|a: int, b: int|
                    0 <= a < i && 0 <= b < cols implies #[trigger] data@.push(v)[a * cols + b]
                    == img@.at(range_block.pos.0 + a, range_block.pos.1 + b) by {
                    lemma_cell_index(a, b, i as int, cols as int);
                }
            }
            data.push(v);
            j = j + 1;
        }
        proof {
            vstd::arithmetic::mul::lemma_mul_is_distributive_add_other_way(cols as int, i as int, 1);
        }
        i = i + 1;
    }
    Arr { rows, cols, data }
}

/// The rectangle that a domain block covers.
pub open spec fn domain_rect(db: DomainBlockLocation) -> RangeBlockLocation {
    RangeBlockLocation { pos: db.pos, size: db.size }
}

/// The cells of `img` that the domain block `domain_block` covers, not yet
/// turned.
pub fn get_domainblock<T: Copy>(img: &Arr<T>, domain_block: DomainBlockLocation) -> (r: Arr<T>)
    requires
        img@.wf(),
        block_within(domain_rect(domain_block), img@.rows, img@.cols),
    ensures
        r@.wf(),
        is_block_of(img@, domain_rect(domain_block), r@),
{
    get_rangeblock(img, RangeBlockLocation { pos: domain_block.pos, size: domain_block.size })
}

/// Where the domain block `db` of an `h` by `w` image lies once the whole
/// image is turned by the block's rotation.
pub open spec fn rotated_window(h: int, w: int, db: DomainBlockLocation) -> RangeBlockLocation {
    let (p0, p1) = (db.pos.0 as int, db.pos.1 as int);
    let (s0, s1) = (db.size.0 as int, db.size.1 as int);
    match db.rotation {
        Rotation::Zero => RangeBlockLocation { pos: db.pos, size: db.size },
        Rotation::Quarter => RangeBlockLocation {
            pos: (db.pos.1, (h - p0 - s0) as usize),
            size: (db.size.1, db.size.0),
        },
        Rotation::Half => RangeBlockLocation {
            pos: ((h - p0 - s0) as usize, (w - p1 - s1) as usize),
            size: (db.size.0, db.size.1),
        },
        Rotation::ThreeQuarter => RangeBlockLocation {
            pos: ((w - p1 - s1) as usize, db.pos.0),
            size: (db.size.1, db.size.0),
        },
    }
}

/// Where the domain block `db` of an image of `h` rows and `w` columns lies
/// in the copy of the image turned by the block's rotation.
pub fn domain_block_window(h: usize, w: usize, db: DomainBlockLocation) -> (r: RangeBlockLocation)
    requires
        block_within(domain_rect(db), h as nat, w as nat),
    ensures
        r == rotated_window(h as int, w as int, db),
{
    match db.rotation {
        Rotation::Zero => RangeBlockLocation { pos: db.pos, size: db.size },
        Rotation::Quarter => RangeBlockLocation {
            pos: (db.pos.1, h - db.pos.0 - db.size.0),
            size: (db.size.1, db.size.0),
        },
        Rotation::Half => RangeBlockLocation {
            pos: (h - db.pos.0 - db.size.0, w - db.pos.1 - db.size.1),
            size: (db.size.0, db.size.1),
        },
        Rotation::ThreeQuarter => RangeBlockLocation {
            pos: (w - db.pos.1 - db.size.1, db.pos.0),
            size: (db.size.1, db.size.0),
        },
    }
}

/// Turning by a quarter, then by three quarters, gives the array back, and
/// so does turning by three quarters, then by a quarter.
pub proof fn law_rotation_quarter_inverse<T>(a: ArrView<T>, b: ArrView<T>, c: ArrView<T>, first: Rotation)
    requires
        first == Rotation::Quarter || first == Rotation::ThreeQuarter,
        is_rotation(a, first, b),
        is_rotation(
            b,
            if first == Rotation::Quarter {
                Rotation::ThreeQuarter
            } else {
                Rotation::Quarter
            },
            c,
        ),
    ensures
        same_cells(c, a),
{
    assert forall|i: int, j: int| 0 <= i < a.rows && 0 <= j < a.cols implies #[trigger] c.at(i, j)
        == a.at(i, j) by {
        if first == Rotation::Quarter {
            assert(c.at(i, j) == b.at(j, b.cols - i - 1));
        } else {
            assert(c.at(i, j) == b.at(b.rows - j - 1, i));
        }
    }
}

/// Turning by a half twice gives the array back.
pub proof fn law_rotation_half_inverse<T>(a: ArrView<T>, b: ArrView<T>, c: ArrView<T>)
    requires
        is_rotation(a, Rotation::Half, b),
        is_rotation(b, Rotation::Half, c),
    ensures
        same_cells(c, a),
{
    assert forall|i: int, j: int| 0 <= i < a.rows && 0 <= j < a.cols implies #[trigger] c.at(i, j)
        == a.at(i, j) by {
        assert(c.at(i, j) == b.at(b.rows - i - 1, b.cols - j - 1));
    }
}

/// Turning by a quarter twice is turning by a half.
pub proof fn law_rotation_quarter_twice<T>(a: ArrView<T>, b: ArrView<T>, c: ArrView<T>)
    requires
        is_rotation(a, Rotation::Quarter, b),
        is_rotation(b, Rotation::Quarter, c),
    ensures
        is_rotation(a, Rotation::Half, c),
{
    assert forall|i: int, j: int| 0 <= i < a.rows && 0 <= j < a.cols implies #[trigger] c.at(i, j)
        == a.at(a.rows - i - 1, a.cols - j - 1) by {
        assert(c.at(i, j) == b.at(b.rows - j - 1, i));
    }
}

/// Cutting the window of a domain block out of the turned image gives the
/// same cells as turning the domain block cut out of the image.
pub proof fn law_rotated_window<T>(
    img: ArrView<T>,
    db: DomainBlockLocation,
    turned: ArrView<T>,
    window: ArrView<T>,
    block: ArrView<T>,
    turned_block: ArrView<T>,
)
    requires
        img.rows <= usize::MAX,
        img.cols <= usize::MAX,
        block_within(domain_rect(db), img.rows, img.cols),
        is_rotation(img, db.rotation, turned),
        is_block_of(turned, rotated_window(img.rows as int, img.cols as int, db), window),
        is_block_of(img, domain_rect(db), block),
        is_rotation(block, db.rotation, turned_block),
    ensures
        same_cells(window, turned_block),
{
    let h = img.rows as int;
    let w = img.cols as int;
    let (p0, p1) = (db.pos.0 as int, db.pos.1 as int);
    let (s0, s1) = (db.size.0 as int, db.size.1 as int);
    assert forall|i: int, j: int|
        0 <= i < window.rows && 0 <= j < window.cols implies #[trigger] window.at(i, j)
        == turned_block.at(i, j) by {
        match db.rotation {
            Rotation::Zero => {
                assert(turned.at(p0 + i, p1 + j) == img.at(p0 + i, p1 + j));
            },
            Rotation::Quarter => {
                assert(window.at(i, j) == turned.at(p1 + i, h - p0 - s0 + j));
                assert(turned_block.at(i, j) == block.at(s0 - j - 1, i));
            },
            Rotation::Half => {
                assert(window.at(i, j) == turned.at(h - p0 - s0 + i, w - p1 - s1 + j));
                assert(turned_block.at(i, j) == block.at(s0 - i - 1, s1 - j - 1));
            },
            Rotation::ThreeQuarter => {
                assert(window.at(i, j) == turned.at(w - p1 - s1 + i, p0 + j));
                assert(turned_block.at(i, j) == block.at(j, s1 - i - 1));
            },
        }
    }
}

/// The first source row of the band that row `i` of a reduction of `h` rows
/// to `t` rows averages: `h * i / t`, rounded down.
pub open spec fn band_start(h: nat, t: nat, i: int) -> int {
    (h * i) / (t as int)
}

/// The window of a source of `h` rows and `w` columns that cell `(i, j)` of
/// its reduction to `th` rows and `tw` columns averages: rows from
/// `h * i / th` up to `h * (i + 1) / th`, and columns likewise.
pub open spec fn scale_window(h: nat, w: nat, th: nat, tw: nat, i: int, j: int) -> RangeBlockLocation {
    let (x, ex) = (band_start(h, th, i), band_start(h, th, i + 1));
    let (y, ey) = (band_start(w, tw, j), band_start(w, tw, j + 1));
    RangeBlockLocation { pos: (x as usize, y as usize), size: ((ex - x) as usize, (ey - y) as usize) }
}

/// Band starts grow with the band.
proof fn lemma_band_start_ordered(h: nat, t: nat, i: int, k: int)
    requires
        t > 0,
        0 <= i <= k,
    ensures
        0 <= band_start(h, t, i) <= band_start(h, t, k),
{
    vstd::arithmetic::mul::lemma_mul_inequality(i, k, h as int);
    vstd::arithmetic::mul::lemma_mul_is_commutative(i, h as int);
    vstd::arithmetic::mul::lemma_mul_is_commutative(k, h as int);
    vstd::arithmetic::mul::lemma_mul_nonnegative(h as int, i);
    vstd::arithmetic::div_mod::lemma_div_is_ordered(h * i, h * k, t as int);
    vstd::arithmetic::div_mod::lemma_div_pos_is_pos(h * i, t as int);
}

/// The band of `t` bands over `h` rows that starts at or before row `a` and
/// ends after it, among the first `n` bands, when band `n` starts after `a`.
proof fn lemma_band_of_row(h: nat, t: nat, a: int, n: int) -> (i: int)
    requires
        t > 0,
        0 <= a,
        0 <= n,
        a < band_start(h, t, n),
    ensures
        0 <= i < n,
        band_start(h, t, i) <= a < band_start(h, t, i + 1),
    decreases n,
{
    assert(band_start(h, t, 0) == 0) by {
        vstd::arithmetic::div_mod::lemma_div_of0(t as int);
    }
    if band_start(h, t, n - 1) <= a {
        n - 1
    } else {
        lemma_band_of_row(h, t, a, n - 1)
    }
}

/// Reducing `h` rows to `t` bands, every row lies in exactly one band.
pub proof fn law_bands_partition(h: nat, t: nat, a: int)
    requires
        t > 0,
        0 <= a < h,
    ensures
        exists|i: int| 0 <= i < t && #[trigger] band_start(h, t, i) <= a < band_start(h, t, i + 1),
        forall|i1: int, i2: int|
            0 <= i1 < t && 0 <= i2 < t && #[trigger] band_start(h, t, i1) <= a < band_start(h, t, i1 + 1)
                && #[trigger] band_start(h, t, i2) <= a < band_start(h, t, i2 + 1) ==> i1 == i2,
{
    assert(band_start(h, t, t as int) == h) by {
        vstd::arithmetic::div_mod::lemma_div_multiples_vanish(h as int, t as int);
        vstd::arithmetic::mul::lemma_mul_is_commutative(h as int, t as int);
    }
    let i = lemma_band_of_row(h, t, a, t as int);
    assert forall|i1: int, i2: int|
        0 <= i1 < t && 0 <= i2 < t && #[trigger] band_start(h, t, i1) <= a < band_start(h, t, i1 + 1)
            && #[trigger] band_start(h, t, i2) <= a < band_start(h, t, i2 + 1) implies i1 == i2 by {
        if i1 < i2 {
            lemma_band_start_ordered(h, t, i1 + 1, i2);
        } else if i2 < i1 {
            lemma_band_start_ordered(h, t, i2 + 1, i1);
        }
    }
}

/// Reducing `h` rows to at most `h` bands, no band is empty.
pub proof fn law_bands_nonempty(h: nat, t: nat, i: int)
    requires
        0 < t <= h,
        0 <= i < t,
    ensures
        band_start(h, t, i) < band_start(h, t, i + 1),
{
    vstd::arithmetic::mul::lemma_mul_is_distributive_add(h as int, i, 1);
    vstd::arithmetic::div_mod::lemma_div_is_ordered(h * i + t, h * (i + 1), t as int);
    vstd::arithmetic::div_mod::lemma_div_plus_one(h * i, t as int);
}

/// The windows that a reduction of an image of `height` rows and `width`
/// columns to `target.0` rows and `target.1` columns averages, row by row.
pub fn scale_windows(height: usize, width: usize, target: (usize, usize)) -> (r: Vec<
    RangeBlockLocation,
>)
    requires
        height * target.0 <= usize::MAX,
        width * target.1 <= usize::MAX,
    ensures
        r@ == Seq::new(
            (target.0 * target.1) as nat,
            |k: int|
                scale_window(
                    height as nat,
                    width as nat,
                    target.0 as nat,
                    target.1 as nat,
                    k / (target.1 as int),
                    k % (target.1 as int),
                ),
        ),
{
    let (th, tw) = target;
    let ghost g = Seq::new(
        (th * tw) as nat,
        |k: int|
            scale_window(height as nat, width as nat, th as nat, tw as nat, k / (tw as int), k % (
            tw as int)),
    );
    let mut v: Vec<RangeBlockLocation> = Vec::new();
    let mut i: usize = 0;
    while i < th
        invariant
            height * th <= usize::MAX,
            width * tw <= usize::MAX,
            g == Seq::new(
                (th * tw) as nat,
                |k: int|
                    scale_window(
                        height as nat,
                        width as nat,
                        th as nat,
                        tw as nat,
                        k / (tw as int),
                        k % (tw as int),
                    ),
            ),
            i <= th,
            v@ == g.subrange(0, i * tw),
            i * tw <= (th * tw) as nat,
        decreases th - i,
    {
        proof {
            vstd::arithmetic::mul::lemma_mul_inequality(i as int + 1, th as int, height as int);
            vstd::arithmetic::mul::lemma_mul_is_commutative(i as int + 1, height as int);
            vstd::arithmetic::mul::lemma_mul_is_commutative(th as int, height as int);
            lemma_band_start_ordered(height as nat, th as nat, i as int, i + 1);
            vstd::arithmetic::mul::lemma_mul_inequality(i as int, i as int + 1, height as int);
            vstd::arithmetic::mul::lemma_mul_is_commutative(i as int, height as int);
            vstd::arithmetic::mul::lemma_mul_is_distributive_add_other_way(tw as int, i as int, 1);
            vstd::arithmetic::mul::lemma_mul_inequality(i as int + 1, th as int, tw as int);
        }
        let x = height * i / th;
        let ex = height * (i + 1) / th;
        let mut j: usize = 0;
        while j < tw
            invariant
                height * th <= usize::MAX,
                width * tw <= usize::MAX,
                g == Seq::new(
                    (th * tw) as nat,
                    |k: int|
                        scale_window(
                            height as nat,
                            width as nat,
                            th as nat,
                            tw as nat,
                            k / (tw as int),
                            k % (tw as int),
                        ),
                ),
                i < th,
                x == band_start(height as nat, th as nat, i as int),
                ex == band_start(height as nat, th as nat, i + 1),
                x <= ex,
                j <= tw,
                v@ == g.subrange(0, i * tw + j),
                i * tw + tw <= (th * tw) as nat,
            decreases tw - j,
        {
            proof {
                vstd::arithmetic::mul::lemma_mul_inequality(j as int + 1, tw as int, width as int);
                vstd::arithmetic::mul::lemma_mul_is_commutative(j as int + 1, width as int);
                vstd::arithmetic::mul::lemma_mul_is_commutative(tw as int, width as int);
                lemma_band_start_ordered(width as nat, tw as nat, j as int, j + 1);
                vstd::arithmetic::mul::lemma_mul_inequality(j as int, j as int + 1, width as int);
                vstd::arithmetic::mul::lemma_mul_is_commutative(j as int, width as int);
                crate::naive::lemma_flat_index(i as int, j as int, tw as int);
            }
            let y = width * j / tw;
            let ey = width * (j + 1) / tw;
            v.push(RangeBlockLocation { pos: (x, y), size: (ex - x, ey - y) });
            assert(v@ =~= g.subrange(0, i * tw + j + 1));
            j = j + 1;
        }
        i = i + 1;
    }
    assert(v@ =~= g);
    v
}

} // verus!
