//! Compression settings for the quadtree partition of an image, and the tree
//! itself with its storage format.
pub mod compression;
pub mod io;
pub mod quadtree;

use crate::decompression::lemma_cell_unique;
use crate::prelude::{
    lemma_cell_index, Arr, DomainBlockLocation, Mappings, RangeBlockLocation, Transformation,
};
use compression::{
    bl, block_contains, block_ends_fit, br, cuts_evenly, in_at_most_one_leaf, in_some_leaf,
    law_leaf_blocks_tile, made_by, quadrant_bl, quadrant_br, quadrant_tl, quadrant_tr, tl, tr,
};
use io::{
    is_canonical, law_quadtree_file_roundtrip, law_restored_transformations_exact, location_fits,
    parse_quadtree_file, part_bl, part_br, part_tl, part_tr, quadtree_file_bits, quadtree_saveable,
};
use crate::bitseq::zeros;
use vstd::arithmetic::div_mod::*;
use vstd::arithmetic::power2::*;
use quadtree::{lemma_leaf_blocks_len, Quadtree};
use vstd::prelude::*;

verus! {

/// How finely an image may be cut into range blocks.
#[derive(Clone, Copy, PartialEq, Debug, Structural)]
pub struct QuadtreeSettings {
    /// The IEEE-754 bit pattern (`f32::to_bits`) of the largest distance
    /// accepted between a range block and its transformed domain block.
    pub max_distance: u32,
    /// The tree is always cut at least this many times.
    pub minimum_range_splits: usize,
    /// The tree is never cut more than this many times.
    pub maximum_range_splits: usize,
    /// How many candidate domain blocks are compared with each range block.
    pub max_neighbors: usize,
}

impl Default for QuadtreeSettings {
    fn default() -> (r: QuadtreeSettings)
        ensures
            r == (QuadtreeSettings {
                max_distance: 0,
                minimum_range_splits: 0,
                maximum_range_splits: 0,
                max_neighbors: 0,
            }),
    {
        QuadtreeSettings {
            max_distance: 0,
            minimum_range_splits: 0,
            maximum_range_splits: 0,
            max_neighbors: 0,
        }
    }
}

/// The tree of the same shape as `t` whose leaves carry the blocks they
/// cover when the root covers `rb` and every node is cut into quadrants.
pub open spec fn block_tree<T>(t: Quadtree<T>, rb: RangeBlockLocation) -> Quadtree<RangeBlockLocation>
    decreases t,
{
    match t {
        Quadtree::Leaf(_) => Quadtree::Leaf(rb),
        Quadtree::Node(a, b, c, d) => Quadtree::Node(
            Box::new(block_tree(*a, quadrant_tl(rb))),
            Box::new(block_tree(*b, quadrant_tr(rb))),
            Box::new(block_tree(*c, quadrant_bl(rb))),
            Box::new(block_tree(*d, quadrant_br(rb))),
        ),
    }
}

/// The map `m` after inserting, in order, each block with the label at the
/// same place.
pub open spec fn insert_all(
    m: Map<RangeBlockLocation, Transformation>,
    blocks: Seq<RangeBlockLocation>,
    labels: Seq<Transformation>,
) -> Map<RangeBlockLocation, Transformation>
    decreases blocks.len(),
{
    if blocks.len() == 0 {
        m
    } else {
        insert_all(m, blocks.drop_last(), labels.drop_last()).insert(
            blocks.last(),
            labels[blocks.len() - 1],
        )
    }
}

/// Inserting two runs of entries is inserting their concatenation.
proof fn lemma_insert_all_add(
    m: Map<RangeBlockLocation, Transformation>,
    b1: Seq<RangeBlockLocation>,
    l1: Seq<Transformation>,
    b2: Seq<RangeBlockLocation>,
    l2: Seq<Transformation>,
)
    requires
        b1.len() == l1.len(),
        b2.len() == l2.len(),
    ensures
        insert_all(m, b1 + b2, l1 + l2) == insert_all(insert_all(m, b1, l1), b2, l2),
    decreases b2.len(),
{
    if b2.len() > 0 {
        lemma_insert_all_add(m, b1, l1, b2.drop_last(), l2.drop_last());
        assert((b1 + b2).drop_last() =~= b1 + b2.drop_last());
        assert((l1 + l2).drop_last() =~= l1 + l2.drop_last());
    } else {
        assert(b1 + b2 =~= b1);
        assert(l1 + l2 =~= l1);
    }
}

/// Records the transformation of each leaf of `t` under the block it
/// covers, and gives back the tree of those blocks.
fn collect_aux(
    t: &Quadtree<Transformation>,
    rb: RangeBlockLocation,
    m: &mut Mappings,
) -> (r: Quadtree<RangeBlockLocation>)
    requires
        old(m).wf(),
        block_ends_fit(rb),
    ensures
        final(m).wf(),
        r == block_tree(*t, rb),
        final(m)@ == insert_all(old(m)@, t.leaf_blocks(rb), t.leaves()),
    decreases t,
{
    match t {
        Quadtree::Leaf(label) => {
            let ghost m0 = m@;
            m.insert(rb, *label);
            proof {
                assert(t.leaf_blocks(rb).drop_last() =~= Seq::<RangeBlockLocation>::empty());
                assert(t.leaves().drop_last() =~= Seq::<Transformation>::empty());
                assert(insert_all(m0, Seq::empty(), Seq::empty()) == m0);
                assert(insert_all(m0, t.leaf_blocks(rb), t.leaves()) == m0.insert(rb, *label));
            }
            Quadtree::leaf(rb)
        },
        Quadtree::Node(a, b, c, d) => {
            let ghost m0 = m@;
            proof {
                lemma_leaf_blocks_len(**a, quadrant_tl(rb));
                lemma_leaf_blocks_len(**b, quadrant_tr(rb));
                lemma_leaf_blocks_len(**c, quadrant_bl(rb));
                lemma_leaf_blocks_len(**d, quadrant_br(rb));
            }
            let ra = collect_aux(a, tl(rb), m);
            let rb2 = collect_aux(b, tr(rb), m);
            let rc = collect_aux(c, bl(rb), m);
            let rd = collect_aux(d, br(rb), m);
            proof {
                let ba = a.leaf_blocks(quadrant_tl(rb));
                let bb = b.leaf_blocks(quadrant_tr(rb));
                let bc = c.leaf_blocks(quadrant_bl(rb));
                let bd = d.leaf_blocks(quadrant_br(rb));
                let la = a.leaves();
                let lb = b.leaves();
                let lc = c.leaves();
                let ld = d.leaves();
                lemma_insert_all_add(m0, ba, la, bb, lb);
                lemma_insert_all_add(m0, ba + bb, la + lb, bc, lc);
                lemma_insert_all_add(m0, ba + bb + bc, la + lb + lc, bd, ld);
            }
            Quadtree::node(ra, rb2, rc, rd)
        },
    }
}

/// The transformation of each range block of the partition `t` of the block
/// `root`, with the tree of range blocks. When two leaves cover the same
/// block, the later one in prefix order is kept.
pub fn collect_mappings(t: &Quadtree<Transformation>, root: RangeBlockLocation) -> (r: (
    Mappings,
    Quadtree<RangeBlockLocation>,
))
    requires
        block_ends_fit(root),
    ensures
        r.0.wf(),
        r.1 == block_tree(*t, root),
        r.0@ == insert_all(Map::empty(), t.leaf_blocks(root), t.leaves()),
{
    let mut m = Mappings::new();
    let rbs = collect_aux(t, root, &mut m);
    (m, rbs)
}

/// A number divisible by `2^(k+1)` is even, and its half is divisible by
/// `2^k`.
proof fn lemma_half_divisible(x: nat, k: nat)
    requires
        x % pow2(k + 1) == 0,
    ensures
        x % 2 == 0,
        (x / 2) % pow2(k) == 0,
{
    let p = pow2(k) as int;
    lemma_pow2_pos(k);
    lemma_pow2_unfold(k + 1);
    lemma_fundamental_div_mod(x as int, 2 * p);
    let q = x as int / (2 * p);
    assert(x == 2 * (p * q)) by (nonlinear_arith)
        requires
            x == (2 * p) * q + 0,
    ;
    lemma_mod_multiples_basic(p * q, 2);
    assert((p * q) * 2 == 2 * (p * q)) by (nonlinear_arith);
    lemma_div_multiples_vanish(p * q, 2);
    lemma_mod_multiples_basic(q, p);
    assert(q * p == p * q) by (nonlinear_arith);
}

/// The partition that `make_quadtree` builds, labelled with its blocks, is
/// one the storage format keeps exactly, when the settings cut at least as
/// deep as they must and every block that may be cut has even sides: its
/// nodes lie between the two depths the settings name, each leaf carries
/// the block the reader assigns, the tree gives back the size of the block
/// it started from, and every block it cuts has even sides.
pub proof fn law_made_tree_storable<T>(
    t: Quadtree<T>,
    ens: spec_fn(RangeBlockLocation, usize, T, bool) -> bool,
    rb: RangeBlockLocation,
    s: QuadtreeSettings,
    level: nat,
)
    requires
        made_by(t, ens, rb, s, level),
        s.minimum_range_splits <= s.maximum_range_splits,
        level <= s.maximum_range_splits + 1,
        (rb.size.0 as nat) % pow2((s.maximum_range_splits + 1 - level) as nat) == 0,
        (rb.size.1 as nat) % pow2((s.maximum_range_splits + 1 - level) as nat) == 0,
        block_ends_fit(rb),
    ensures
        is_canonical(
            block_tree(t, rb),
            rb,
            s.minimum_range_splits as nat,
            s.maximum_range_splits as nat,
            level,
        ),
        block_tree(t, rb).image_size_spec() == (rb.size.0 as nat, rb.size.1 as nat),
        cuts_evenly(t, rb),
    decreases t,
{
    match t {
        Quadtree::Leaf(_) => {},
        Quadtree::Node(a, b, c, d) => {
            let k = (s.maximum_range_splits - level) as nat;
            assert(level <= s.maximum_range_splits);
            lemma_half_divisible(rb.size.0 as nat, k);
            lemma_half_divisible(rb.size.1 as nat, k);
            assert(part_tl(rb) == quadrant_tl(rb));
            assert(part_tr(rb) == quadrant_tr(rb));
            assert(part_bl(rb) == quadrant_bl(rb));
            assert(part_br(rb) == quadrant_br(rb));
            law_made_tree_storable(*a, ens, quadrant_tl(rb), s, level + 1);
            law_made_tree_storable(*b, ens, quadrant_tr(rb), s, level + 1);
            law_made_tree_storable(*c, ens, quadrant_bl(rb), s, level + 1);
            law_made_tree_storable(*d, ens, quadrant_br(rb), s, level + 1);
        },
    }
}

/// The partition that `make_quadtree` builds from a block whose sides are
/// divisible by two once per level it may still cut covers the block
/// exactly: a cell lies in the block when and only when it lies in one leaf
/// block, and it lies in no two of them.
pub proof fn law_made_tree_tiles<T>(
    t: Quadtree<T>,
    ens: spec_fn(RangeBlockLocation, usize, T, bool) -> bool,
    rb: RangeBlockLocation,
    s: QuadtreeSettings,
    level: nat,
    i: int,
    j: int,
)
    requires
        made_by(t, ens, rb, s, level),
        s.minimum_range_splits <= s.maximum_range_splits,
        level <= s.maximum_range_splits + 1,
        (rb.size.0 as nat) % pow2((s.maximum_range_splits + 1 - level) as nat) == 0,
        (rb.size.1 as nat) % pow2((s.maximum_range_splits + 1 - level) as nat) == 0,
        block_ends_fit(rb),
    ensures
        block_contains(rb, i, j) <==> in_some_leaf(t, rb, i, j),
        in_at_most_one_leaf(t, rb, i, j),
{
    law_made_tree_storable(t, ens, rb, s, level);
    law_leaf_blocks_tile(t, rb, i, j);
}

/// The leaves of the tree of blocks are the blocks of the leaves.
proof fn lemma_block_tree_leaves<T>(t: Quadtree<T>, rb: RangeBlockLocation)
    ensures
        block_tree(t, rb).leaves() == t.leaf_blocks(rb),
    decreases t,
{
    match t {
        Quadtree::Leaf(_) => {},
        Quadtree::Node(a, b, c, d) => {
            lemma_block_tree_leaves(*a, quadrant_tl(rb));
            lemma_block_tree_leaves(*b, quadrant_tr(rb));
            lemma_block_tree_leaves(*c, quadrant_bl(rb));
            lemma_block_tree_leaves(*d, quadrant_br(rb));
        },
    }
}

/// Inserting blocks with labels into the empty map gives a map whose keys
/// are the blocks, each with the label of one of its places.
proof fn lemma_insert_all_entries(
    blocks: Seq<RangeBlockLocation>,
    labels: Seq<Transformation>,
    k: RangeBlockLocation,
)
    requires
        blocks.len() == labels.len(),
    ensures
        insert_all(Map::empty(), blocks, labels).dom().contains(k) <==> blocks.contains(k),
        blocks.contains(k) ==> exists|j: int|
            0 <= j < blocks.len() && blocks[j] == k && insert_all(Map::empty(), blocks, labels)[k]
                == #[trigger] labels[j],
    decreases blocks.len(),
{
    if blocks.len() > 0 {
        let b0 = blocks.drop_last();
        let l0 = labels.drop_last();
        let n = blocks.len() - 1;
        lemma_insert_all_entries(b0, l0, k);
        if b0.contains(k) {
            let i = choose|i: int| 0 <= i < b0.len() && b0[i] == k;
            assert(blocks[i] == k);
        }
        if blocks.contains(k) {
            if k == blocks[n] {
                assert(insert_all(Map::empty(), blocks, labels)[k] == labels[n]);
            } else {
                let i = choose|i: int| 0 <= i < blocks.len() && blocks[i] == k;
                assert(b0[i] == k);
                let j = choose|j: int|
                    0 <= j < b0.len() && b0[j] == k && insert_all(Map::empty(), b0, l0)[k]
                        == #[trigger] l0[j];
                assert(labels[j] == l0[j]);
            }
        }
    }
}

/// Every label of a tree that `make_quadtree` builds is one that `evaluate`
/// may give, so it has every property that all such labels have.
proof fn lemma_made_labels(
    t: Quadtree<Transformation>,
    ens: spec_fn(RangeBlockLocation, usize, Transformation, bool) -> bool,
    rb: RangeBlockLocation,
    s: QuadtreeSettings,
    level: nat,
    p: spec_fn(Transformation) -> bool,
)
    requires
        made_by(t, ens, rb, s, level),
        forall|b: RangeBlockLocation, l: usize, x: Transformation, far: bool|
            #[trigger] ens(b, l, x, far) ==> p(x),
    ensures
        forall|k: int| 0 <= k < t.leaves().len() ==> p(#[trigger] t.leaves()[k]),
    decreases t,
{
    match t {
        Quadtree::Leaf(label) => {
            assert(t.leaves()[0] == label);
        },
        Quadtree::Node(a, b, c, d) => {
            lemma_made_labels(*a, ens, quadrant_tl(rb), s, level + 1, p);
            lemma_made_labels(*b, ens, quadrant_tr(rb), s, level + 1, p);
            lemma_made_labels(*c, ens, quadrant_bl(rb), s, level + 1, p);
            lemma_made_labels(*d, ens, quadrant_br(rb), s, level + 1, p);
            let (la, lb, lc) = (a.leaves().len() as int, b.leaves().len() as int, c.leaves().len() as int);
            assert forall|k: int| 0 <= k < t.leaves().len() implies p(#[trigger] t.leaves()[k]) by {
                if k < la {
                    assert(t.leaves()[k] == a.leaves()[k]);
                } else if k < la + lb {
                    assert(t.leaves()[k] == b.leaves()[k - la]);
                } else if k < la + lb + lc {
                    assert(t.leaves()[k] == c.leaves()[k - la - lb]);
                } else {
                    assert(t.leaves()[k] == d.leaves()[k - la - lb - lc]);
                }
            }
        },
    }
}

/// A tree that `make_quadtree` builds from `level` is no deeper than the
/// settings allow below that level, and so is its tree of blocks.
proof fn lemma_made_height<T>(
    t: Quadtree<T>,
    ens: spec_fn(RangeBlockLocation, usize, T, bool) -> bool,
    rb: RangeBlockLocation,
    s: QuadtreeSettings,
    level: nat,
)
    requires
        made_by(t, ens, rb, s, level),
        s.minimum_range_splits <= s.maximum_range_splits,
        level <= s.maximum_range_splits + 1,
    ensures
        t.height() + level <= s.maximum_range_splits + 1,
        block_tree(t, rb).height() == t.height(),
    decreases t,
{
    match t {
        Quadtree::Leaf(_) => {},
        Quadtree::Node(a, b, c, d) => {
            lemma_made_height(*a, ens, quadrant_tl(rb), s, level + 1);
            lemma_made_height(*b, ens, quadrant_tr(rb), s, level + 1);
            lemma_made_height(*c, ens, quadrant_bl(rb), s, level + 1);
            lemma_made_height(*d, ens, quadrant_br(rb), s, level + 1);
        },
    }
}

/// The domain block lies within twice an image of `h` rows and `w` columns:
/// where `candidate_block` and `fallback_block` place theirs.
pub open spec fn within_twice(d: DomainBlockLocation, h: nat, w: nat) -> bool {
    &&& d.pos.0 + d.size.0 <= 2 * h
    &&& d.pos.1 + d.size.1 <= 2 * w
}

/// What `make_quadtree` builds over an image of `h` rows and `w` columns,
/// collected by `collect_mappings`, is stored by `save_mappings` and read
/// back exactly by `load_mappings`: the settings (without the neighbour
/// count, which is not stored), the image size, every transformation and
/// the tree of range blocks; the tree is no deeper than the settings allow. This holds when every domain block `evaluate`
/// may name lies within twice the image, as the candidates of the index and
/// the fallback do, the sides are below 2^31 and divisible by two once per
/// level the settings may cut, and the depths fit their fields.
pub proof fn law_compressed_image_restored(
    t: Quadtree<Transformation>,
    ens: spec_fn(RangeBlockLocation, usize, Transformation, bool) -> bool,
    h: usize,
    w: usize,
    s: QuadtreeSettings,
    pad: nat,
)
    requires
        made_by(t, ens, RangeBlockLocation { pos: (0, 0), size: (h, w) }, s, 0),
        forall|b: RangeBlockLocation, l: usize, x: Transformation, far: bool|
            #[trigger] ens(b, l, x, far) ==> within_twice(x.0, h as nat, w as nat),
        s.minimum_range_splits <= s.maximum_range_splits,
        s.maximum_range_splits < 63,
        (h as nat) % pow2((s.maximum_range_splits + 1) as nat) == 0,
        (w as nat) % pow2((s.maximum_range_splits + 1) as nat) == 0,
        h < 0x8000_0000,
        w < 0x8000_0000,
        32 < usize::BITS,
    ensures
        ({
            let root = RangeBlockLocation { pos: (0, 0), size: (h, w) };
            let m = insert_all(Map::empty(), t.leaf_blocks(root), t.leaves());
            let bt = block_tree(t, root);
            &&& quadtree_saveable(m, bt, s)
            &&& bt.height() <= s.maximum_range_splits + 1
            &&& parse_quadtree_file(quadtree_file_bits(m, bt, s) + zeros(pad)) == Some(
                (QuadtreeSettings { max_neighbors: 0, ..s }, (h, w), m, bt),
            )
        }),
{
    let root = RangeBlockLocation { pos: (0, 0), size: (h, w) };
    let blocks = t.leaf_blocks(root);
    let labels = t.leaves();
    let m = insert_all(Map::empty(), blocks, labels);
    let bt = block_tree(t, root);
    law_made_tree_storable(t, ens, root, s, 0);
    lemma_made_height(t, ens, root, s, 0);
    lemma_block_tree_leaves(t, root);
    lemma_leaf_blocks_len(t, root);
    let p = |x: Transformation| within_twice(x.0, h as nat, w as nat);
    lemma_made_labels(t, ens, root, s, 0, p);
    assert forall|k: RangeBlockLocation| #[trigger] m.dom().contains(k) implies location_fits(m[k].0)
        && blocks.contains(k) by {
        lemma_insert_all_entries(blocks, labels, k);
        let j = choose|j: int| 0 <= j < blocks.len() && blocks[j] == k && m[k] == #[trigger] labels[j];
        assert(p(labels[j]));
    }
    assert forall|k: int| 0 <= k < bt.leaves().len() implies {
        &&& m.dom().contains(#[trigger] bt.leaves()[k])
        &&& location_fits(m[bt.leaves()[k]].0)
    } by {
        lemma_insert_all_entries(blocks, labels, bt.leaves()[k]);
        assert(blocks[k] == bt.leaves()[k]);
    }
    assert(quadtree_saveable(m, bt, s));
    law_quadtree_file_roundtrip(m, bt, s, pad);
    assert forall|k: RangeBlockLocation| m.dom().contains(k) <==> bt.leaves().contains(k) by {
        lemma_insert_all_entries(blocks, labels, k);
    }
    law_restored_transformations_exact(m, bt.leaves());
}

/// Whether the cell `(a, b)` lies on the outline drawn around `rb`: the
/// first and the last column of the block over its rows, and its first and
/// last row over its columns.
pub open spec fn on_outline(rb: RangeBlockLocation, a: int, b: int) -> bool {
    let (p0, p1, s0, s1) = (rb.pos.0 as int, rb.pos.1 as int, rb.size.0 as int, rb.size.1 as int);
    ||| (p0 <= a < p0 + s0 && (b == p1 || b == p1 + s1 - 1))
    ||| (p1 <= b < p1 + s1 && (a == p0 || a == p0 + s0 - 1))
}

/// Every cell of the outline of `rb` lies in an image of `rows` rows and
/// `cols` columns, and the block ends within `usize`.
pub open spec fn outline_fits(rb: RangeBlockLocation, rows: int, cols: int) -> bool {
    let (p0, p1, s0, s1) = (rb.pos.0 as int, rb.pos.1 as int, rb.size.0 as int, rb.size.1 as int);
    &&& block_ends_fit(rb)
    &&& s0 > 0 ==> (p0 + s0 <= rows && 1 <= p1 + s1 && p1 + s1 - 1 < cols && p1 < cols)
    &&& s1 > 0 ==> (p1 + s1 <= cols && 1 <= p0 + s0 && p0 + s0 - 1 < rows && p0 < rows)
}

/// Whether the outline of `rb` can be drawn on an image of `rows` rows and
/// `cols` columns.
pub fn outline_fits_in(rb: RangeBlockLocation, rows: usize, cols: usize) -> (r: bool)
    ensures
        r == outline_fits(rb, rows as int, cols as int),
{
    let (p0, p1) = rb.pos;
    let (s0, s1) = rb.size;
    if p0 > usize::MAX - s0 || p1 > usize::MAX - s1 {
        return false;
    }
    let rows_ok = s0 == 0 || (p0 + s0 <= rows && 1 <= p1 + s1 && p1 + s1 - 1 < cols && p1 < cols);
    let cols_ok = s1 == 0 || (p1 + s1 <= cols && 1 <= p0 + s0 && p0 + s0 - 1 < rows && p0 < rows);
    rows_ok && cols_ok
}

/// `img` with every cell of the outline of `rb` set to `v`.
pub fn outline_block<T: Copy>(img: &mut Arr<T>, rb: RangeBlockLocation, v: T)
    requires
        old(img)@.wf(),
        outline_fits(rb, old(img)@.rows as int, old(img)@.cols as int),
    ensures
        final(img)@.wf(),
        final(img)@.rows == old(img)@.rows,
        final(img)@.cols == old(img)@.cols,
        forall|a: int, b: int|
            0 <= a < old(img)@.rows && 0 <= b < old(img)@.cols ==> #[trigger] final(img)@.at(a, b)
                == (if on_outline(rb, a, b) {
                v
            } else {
                old(img)@.at(a, b)
            }),
{
    let ghost start = img@;
    let ghost cols = start.cols as int;
    let ghost (p0, p1, s0, s1) = (rb.pos.0 as int, rb.pos.1 as int, rb.size.0 as int, rb.size.1 as int);
    let mut i: usize = 0;
    while i < rb.size.0
        invariant
            start == old(img)@,
            cols == start.cols,
            (p0, p1, s0, s1) == (rb.pos.0 as int, rb.pos.1 as int, rb.size.0 as int, rb.size.1 as int),
            outline_fits(rb, start.rows as int, start.cols as int),
            img@.wf(),
            img@.rows == start.rows,
            img@.cols == start.cols,
            i <= rb.size.0,
            forall|a: int, b: int|
                0 <= a < start.rows && 0 <= b < start.cols ==> #[trigger] img@.at(a, b) == (if p0
                    <= a < p0 + i && (b == p1 || b == p1 + s1 - 1) {
                    v
                } else {
                    start.at(a, b)
                }),
        decreases rb.size.0 - i,
    {
        let ghost prev = img@;
        let ghost (x, y1, y2) = (p0 + i, p1, p1 + s1 - 1);
        img.set(rb.pos.0 + i, rb.pos.1, v);
        let ghost mid = img@;
        img.set(rb.pos.0 + i, rb.pos.1 + rb.size.1 - 1, v);
        proof {
            assert forall|a: int, b: int|
                0 <= a < start.rows && 0 <= b < start.cols implies #[trigger] img@.at(a, b) == (if p0
                    <= a < p0 + i + 1 && (b == p1 || b == p1 + s1 - 1) {
                    v
                } else {
                    start.at(a, b)
                }) by {
                lemma_cell_index(a, b, start.rows as int, cols);
                lemma_cell_index(x, y1, start.rows as int, cols);
                lemma_cell_index(x, y2, start.rows as int, cols);
                if a * cols + b == x * cols + y2 {
                    lemma_cell_unique(a, b, x, y2, cols);
                } else {
                    assert(img@.at(a, b) == mid.at(a, b));
                    if a * cols + b == x * cols + y1 {
                        lemma_cell_unique(a, b, x, y1, cols);
                    } else {
                        assert(mid.at(a, b) == prev.at(a, b));
                    }
                }
            }
        }
        i = i + 1;
    }
    let mut j: usize = 0;
    while j < rb.size.1
        invariant
            start == old(img)@,
            cols == start.cols,
            (p0, p1, s0, s1) == (rb.pos.0 as int, rb.pos.1 as int, rb.size.0 as int, rb.size.1 as int),
            outline_fits(rb, start.rows as int, start.cols as int),
            img@.wf(),
            img@.rows == start.rows,
            img@.cols == start.cols,
            j <= rb.size.1,
            forall|a: int, b: int|
                0 <= a < start.rows && 0 <= b < start.cols ==> #[trigger] img@.at(a, b) == (if (p0
                    <= a < p0 + s0 && (b == p1 || b == p1 + s1 - 1)) || (p1 <= b < p1 + j && (a
                    == p0 || a == p0 + s0 - 1)) {
                    v
                } else {
                    start.at(a, b)
                }),
        decreases rb.size.1 - j,
    {
        let ghost prev = img@;
        let ghost (x1, x2, y) = (p0, p0 + s0 - 1, p1 + j);
        img.set(rb.pos.0, rb.pos.1 + j, v);
        let ghost mid = img@;
        img.set(rb.pos.0 + rb.size.0 - 1, rb.pos.1 + j, v);
        proof {
            assert forall|a: int, b: int|
                0 <= a < start.rows && 0 <= b < start.cols implies #[trigger] img@.at(a, b) == (if (p0
                    <= a < p0 + s0 && (b == p1 || b == p1 + s1 - 1)) || (p1 <= b < p1 + j + 1 && (a
                    == p0 || a == p0 + s0 - 1)) {
                    v
                } else {
                    start.at(a, b)
                }) by {
                lemma_cell_index(a, b, start.rows as int, cols);
                lemma_cell_index(x1, y, start.rows as int, cols);
                lemma_cell_index(x2, y, start.rows as int, cols);
                if a * cols + b == x2 * cols + y {
                    lemma_cell_unique(a, b, x2, y, cols);
                } else {
                    assert(img@.at(a, b) == mid.at(a, b));
                    if a * cols + b == x1 * cols + y {
                        lemma_cell_unique(a, b, x1, y, cols);
                    } else {
                        assert(mid.at(a, b) == prev.at(a, b));
                    }
                }
            }
        }
        j = j + 1;
    }
}

} // verus!
