//! The four quadrants of a range block.
use super::quadtree::Quadtree;
use super::QuadtreeSettings;
use crate::naive::lemma_flat_index;
use crate::prelude::{DomainBlockLocation, RangeBlockLocation, Rotation};
use vstd::arithmetic::div_mod::*;
use vstd::arithmetic::mul::*;
use vstd::arithmetic::power2::*;
use vstd::bits::{lemma_usize_pow2_no_overflow, lemma_usize_shl_is_mul};
use vstd::prelude::*;

verus! {

/// The top-left quadrant: half the size, same corner.
pub open spec fn quadrant_tl(b: RangeBlockLocation) -> RangeBlockLocation {
    RangeBlockLocation { size: ((b.size.0 / 2) as usize, (b.size.1 / 2) as usize), pos: b.pos }
}

/// The quadrant below on the first axis: the corner moves by half the first
/// size.
pub open spec fn quadrant_tr(b: RangeBlockLocation) -> RangeBlockLocation {
    RangeBlockLocation {
        size: ((b.size.0 / 2) as usize, (b.size.1 / 2) as usize),
        pos: ((b.pos.0 + b.size.0 / 2) as usize, b.pos.1),
    }
}

/// The quadrant beside on the second axis: the corner moves by half the
/// second size.
pub open spec fn quadrant_bl(b: RangeBlockLocation) -> RangeBlockLocation {
    RangeBlockLocation {
        size: ((b.size.0 / 2) as usize, (b.size.1 / 2) as usize),
        pos: (b.pos.0, (b.pos.1 + b.size.1 / 2) as usize),
    }
}

/// The opposite quadrant: the corner moves by half of both sizes.
pub open spec fn quadrant_br(b: RangeBlockLocation) -> RangeBlockLocation {
    RangeBlockLocation {
        size: ((b.size.0 / 2) as usize, (b.size.1 / 2) as usize),
        pos: ((b.pos.0 + b.size.0 / 2) as usize, (b.pos.1 + b.size.1 / 2) as usize),
    }
}

/// The quadrants of `b` can be computed without leaving `usize`.
pub open spec fn quadrants_fit(b: RangeBlockLocation) -> bool {
    &&& b.pos.0 + b.size.0 / 2 <= usize::MAX
    &&& b.pos.1 + b.size.1 / 2 <= usize::MAX
}

/// Whether the cell `(i, j)` lies in block `b`.
pub open spec fn block_contains(b: RangeBlockLocation, i: int, j: int) -> bool {
    &&& b.pos.0 <= i < b.pos.0 + b.size.0
    &&& b.pos.1 <= j < b.pos.1 + b.size.1
}

/// The top-left quadrant of a block.
pub fn tl(b: RangeBlockLocation) -> (r: RangeBlockLocation)
    ensures
        r == quadrant_tl(b),
{
    RangeBlockLocation { size: (b.size.0 / 2, b.size.1 / 2), pos: b.pos }
}

/// The quadrant of a block that shares its second coordinate, moved by half
/// the second size.
pub fn bl(b: RangeBlockLocation) -> (r: RangeBlockLocation)
    requires
        b.pos.1 + b.size.1 / 2 <= usize::MAX,
    ensures
        r == quadrant_bl(b),
{
    RangeBlockLocation { size: (b.size.0 / 2, b.size.1 / 2), pos: (b.pos.0, b.pos.1 + b.size.1 / 2) }
}

/// The quadrant of a block moved by half the first size.
pub fn tr(b: RangeBlockLocation) -> (r: RangeBlockLocation)
    requires
        b.pos.0 + b.size.0 / 2 <= usize::MAX,
    ensures
        r == quadrant_tr(b),
{
    RangeBlockLocation { size: (b.size.0 / 2, b.size.1 / 2), pos: (b.pos.0 + b.size.0 / 2, b.pos.1) }
}

/// The quadrant of a block moved by half of both sizes.
pub fn br(b: RangeBlockLocation) -> (r: RangeBlockLocation)
    requires
        quadrants_fit(b),
    ensures
        r == quadrant_br(b),
{
    RangeBlockLocation {
        size: (b.size.0 / 2, b.size.1 / 2),
        pos: (b.pos.0 + b.size.0 / 2, b.pos.1 + b.size.1 / 2),
    }
}

/// When both sizes of a block are even, its four quadrants tile it: every
/// cell of the block lies in exactly one quadrant, and every cell of a
/// quadrant lies in the block.
pub proof fn law_quadrants_tile(b: RangeBlockLocation, i: int, j: int)
    requires
        quadrants_fit(b),
        b.size.0 % 2 == 0,
        b.size.1 % 2 == 0,
    ensures
        block_contains(b, i, j) <==> (block_contains(quadrant_tl(b), i, j) || block_contains(
            quadrant_tr(b),
            i,
            j,
        ) || block_contains(quadrant_bl(b), i, j) || block_contains(quadrant_br(b), i, j)),
        !(block_contains(quadrant_tl(b), i, j) && block_contains(quadrant_tr(b), i, j)),
        !(block_contains(quadrant_tl(b), i, j) && block_contains(quadrant_bl(b), i, j)),
        !(block_contains(quadrant_tl(b), i, j) && block_contains(quadrant_br(b), i, j)),
        !(block_contains(quadrant_tr(b), i, j) && block_contains(quadrant_bl(b), i, j)),
        !(block_contains(quadrant_tr(b), i, j) && block_contains(quadrant_br(b), i, j)),
        !(block_contains(quadrant_bl(b), i, j) && block_contains(quadrant_br(b), i, j)),
{
}

/// Every block that the tree cuts, starting from `rb`, has even sides.
pub open spec fn cuts_evenly<T>(t: Quadtree<T>, rb: RangeBlockLocation) -> bool
    decreases t,
{
    match t {
        Quadtree::Leaf(_) => true,
        Quadtree::Node(a, b, c, d) => {
            &&& rb.size.0 % 2 == 0
            &&& rb.size.1 % 2 == 0
            &&& cuts_evenly(*a, quadrant_tl(rb))
            &&& cuts_evenly(*b, quadrant_tr(rb))
            &&& cuts_evenly(*c, quadrant_bl(rb))
            &&& cuts_evenly(*d, quadrant_br(rb))
        },
    }
}

/// Whether some leaf block of `t`, when the root covers `rb`, contains the
/// cell `(i, j)`.
pub open spec fn in_some_leaf<T>(t: Quadtree<T>, rb: RangeBlockLocation, i: int, j: int) -> bool {
    exists|k: int|
        0 <= k < t.leaf_blocks(rb).len() && block_contains(#[trigger] t.leaf_blocks(rb)[k], i, j)
}

/// No two leaf blocks of `t`, when the root covers `rb`, contain the cell
/// `(i, j)`.
pub open spec fn in_at_most_one_leaf<T>(t: Quadtree<T>, rb: RangeBlockLocation, i: int, j: int) -> bool {
    forall|k1: int, k2: int|
        0 <= k1 < k2 < t.leaf_blocks(rb).len() && block_contains(
            #[trigger] t.leaf_blocks(rb)[k1],
            i,
            j,
        ) ==> !block_contains(#[trigger] t.leaf_blocks(rb)[k2], i, j)
}

/// When every block the tree cuts has even sides, the blocks of its leaves
/// tile the block of its root: a cell lies in the root block exactly when it
/// lies in a leaf block, and it lies in no two leaf blocks.
pub proof fn law_leaf_blocks_tile<T>(t: Quadtree<T>, rb: RangeBlockLocation, i: int, j: int)
    requires
        block_ends_fit(rb),
        cuts_evenly(t, rb),
    ensures
        block_contains(rb, i, j) <==> in_some_leaf(t, rb, i, j),
        in_at_most_one_leaf(t, rb, i, j),
    decreases t,
{
    match t {
        Quadtree::Leaf(_) => {
            if block_contains(rb, i, j) {
                assert(block_contains(t.leaf_blocks(rb)[0], i, j));
            }
        },
        Quadtree::Node(a, b, c, d) => {
            let (qa, qb, qc, qd) = (quadrant_tl(rb), quadrant_tr(rb), quadrant_bl(rb), quadrant_br(rb));
            law_leaf_blocks_tile(*a, qa, i, j);
            law_leaf_blocks_tile(*b, qb, i, j);
            law_leaf_blocks_tile(*c, qc, i, j);
            law_leaf_blocks_tile(*d, qd, i, j);
            law_quadrants_tile(rb, i, j);
            let (sa, sb, sc, sd) = (a.leaf_blocks(qa), b.leaf_blocks(qb), c.leaf_blocks(qc), d.leaf_blocks(qd));
            let s = t.leaf_blocks(rb);
            assert(s == sa + sb + sc + sd);
            let (na, nb, nc) = (sa.len() as int, sb.len() as int, sc.len() as int);
            // Which child's quadrant holds the leaf block at position k.
            assert forall|k: int| 0 <= k < s.len() implies #[trigger] s[k] == (if k < na {
                sa[k]
            } else if k < na + nb {
                sb[k - na]
            } else if k < na + nb + nc {
                sc[k - na - nb]
            } else {
                sd[k - na - nb - nc]
            }) by {}
            if block_contains(rb, i, j) {
                if block_contains(qa, i, j) {
                    let k = choose|k: int| 0 <= k < sa.len() && block_contains(#[trigger] sa[k], i, j);
                    assert(block_contains(s[k], i, j));
                } else if block_contains(qb, i, j) {
                    let k = choose|k: int| 0 <= k < sb.len() && block_contains(#[trigger] sb[k], i, j);
                    assert(block_contains(s[na + k], i, j));
                } else if block_contains(qc, i, j) {
                    let k = choose|k: int| 0 <= k < sc.len() && block_contains(#[trigger] sc[k], i, j);
                    assert(block_contains(s[na + nb + k], i, j));
                } else {
                    let k = choose|k: int| 0 <= k < sd.len() && block_contains(#[trigger] sd[k], i, j);
                    assert(block_contains(s[na + nb + nc + k], i, j));
                }
            }
            if in_some_leaf(t, rb, i, j) {
                let k = choose|k: int| 0 <= k < s.len() && block_contains(#[trigger] s[k], i, j);
                if k < na {
                    assert(block_contains(sa[k], i, j));
                } else if k < na + nb {
                    assert(block_contains(sb[k - na], i, j));
                } else if k < na + nb + nc {
                    assert(block_contains(sc[k - na - nb], i, j));
                } else {
                    assert(block_contains(sd[k - na - nb - nc], i, j));
                }
            }
            assert forall|k1: int, k2: int|
                0 <= k1 < k2 < s.len() && block_contains(#[trigger] s[k1], i, j) implies !block_contains(
                #[trigger] s[k2],
                i,
                j,
            ) by {
                if block_contains(s[k2], i, j) {
                    // the child of each position, and the quadrant that holds the cell
                    let c1 = if k1 < na { 0int } else if k1 < na + nb { 1int } else if k1 < na + nb + nc { 2int } else { 3int };
                    let c2 = if k2 < na { 0int } else if k2 < na + nb { 1int } else if k2 < na + nb + nc { 2int } else { 3int };
                    if c1 == 0 {
                        assert(block_contains(sa[k1], i, j));
                    } else if c1 == 1 {
                        assert(block_contains(sb[k1 - na], i, j));
                    } else if c1 == 2 {
                        assert(block_contains(sc[k1 - na - nb], i, j));
                    } else {
                        assert(block_contains(sd[k1 - na - nb - nc], i, j));
                    }
                    if c2 == 0 {
                        assert(block_contains(sa[k2], i, j));
                    } else if c2 == 1 {
                        assert(block_contains(sb[k2 - na], i, j));
                    } else if c2 == 2 {
                        assert(block_contains(sc[k2 - na - nb], i, j));
                    } else {
                        assert(block_contains(sd[k2 - na - nb - nc], i, j));
                    }
                    if c1 == c2 {
                        if c1 == 0 {
                            assert(!block_contains(sa[k2], i, j));
                        } else if c1 == 1 {
                            assert(!block_contains(sb[k2 - na], i, j));
                        } else if c1 == 2 {
                            assert(!block_contains(sc[k2 - na - nb], i, j));
                        } else {
                            assert(!block_contains(sd[k2 - na - nb - nc], i, j));
                        }
                    }
                }
            }
        },
    }
}

/// The block ends within `usize` on both axes, so that all its quadrants,
/// and theirs, can be computed.
pub open spec fn block_ends_fit(b: RangeBlockLocation) -> bool {
    &&& b.pos.0 + b.size.0 <= usize::MAX
    &&& b.pos.1 + b.size.1 <= usize::MAX
}

/// The deepest level at which `make_quadtree` may still cut.
pub open spec fn deepest_cut(s: QuadtreeSettings) -> nat {
    if s.minimum_range_splits >= s.maximum_range_splits {
        s.minimum_range_splits as nat
    } else {
        s.maximum_range_splits as nat
    }
}

/// What a call of `f` on a block and a level may give back.
pub open spec fn ensures_of<T, F: Fn(RangeBlockLocation, usize) -> (T, bool)>(f: F) -> spec_fn(
    RangeBlockLocation,
    usize,
    T,
    bool,
) -> bool {
    |b: RangeBlockLocation, l: usize, t: T, far: bool| f.ensures((b, l), (t, far))
}

/// `t` is what `make_quadtree` builds for the block `rb` at `level` when
/// `evaluate` answers for each block it is asked about: blocks at levels up to
/// `minimum_range_splits` are cut without asking; a deeper block becomes a
/// leaf with the label `evaluate` gives, unless `evaluate` reports it too far
/// from its best match and its level minus one is below
/// `maximum_range_splits`, in which case it is cut.
pub open spec fn made_by<T>(
    t: Quadtree<T>,
    evaluate: spec_fn(RangeBlockLocation, usize, T, bool) -> bool,
    rb: RangeBlockLocation,
    s: QuadtreeSettings,
    level: nat,
) -> bool
    decreases t,
{
    match t {
        Quadtree::Leaf(label) => {
            &&& level > s.minimum_range_splits
            &&& exists|far: bool|
                #[trigger] evaluate(rb, level as usize, label, far) && !(far && level - 1
                    < s.maximum_range_splits)
        },
        Quadtree::Node(a, b, c, d) => {
            &&& (level <= s.minimum_range_splits || (level - 1 < s.maximum_range_splits
                && exists|label: T| #[trigger] evaluate(rb, level as usize, label, true)))
            &&& made_by(*a, evaluate, quadrant_tl(rb), s, level + 1)
            &&& made_by(*b, evaluate, quadrant_tr(rb), s, level + 1)
            &&& made_by(*c, evaluate, quadrant_bl(rb), s, level + 1)
            &&& made_by(*d, evaluate, quadrant_br(rb), s, level + 1)
        },
    }
}

/// A block at a level up to `minimum_range_splits` is always cut, and so is
/// a deeper block that `evaluate` can only report too far while its level
/// minus one is below `maximum_range_splits`.
pub proof fn law_far_blocks_are_cut<T>(
    t: Quadtree<T>,
    ens: spec_fn(RangeBlockLocation, usize, T, bool) -> bool,
    rb: RangeBlockLocation,
    s: QuadtreeSettings,
    level: nat,
)
    requires
        made_by(t, ens, rb, s, level),
        level <= s.minimum_range_splits || (level - 1 < s.maximum_range_splits && forall|
            x: T,
            f: bool,
        | #[trigger] ens(rb, level as usize, x, f) ==> f),
    ensures
        t is Node,
{
    if let Quadtree::Leaf(label) = t {
        let f = choose|f: bool|
            #[trigger] ens(rb, level as usize, label, f) && !(f && level - 1 < s.maximum_range_splits);
        assert(ens(rb, level as usize, label, f));
    }
}

/// A block below `minimum_range_splits` that `evaluate` can only report
/// close enough, or whose level minus one has reached
/// `maximum_range_splits`, becomes a leaf, labelled with an answer that
/// `evaluate` gave for it.
pub proof fn law_other_blocks_are_leaves<T>(
    t: Quadtree<T>,
    ens: spec_fn(RangeBlockLocation, usize, T, bool) -> bool,
    rb: RangeBlockLocation,
    s: QuadtreeSettings,
    level: nat,
)
    requires
        made_by(t, ens, rb, s, level),
        level > s.minimum_range_splits,
        level - 1 >= s.maximum_range_splits || forall|x: T, f: bool|
            #[trigger] ens(rb, level as usize, x, f) ==> !f,
    ensures
        t matches Quadtree::Leaf(l) && exists|f: bool| #[trigger] ens(rb, level as usize, l, f),
{
    if let Quadtree::Node(..) = t {
        let l = choose|l: T| #[trigger] ens(rb, level as usize, l, true);
        assert(ens(rb, level as usize, l, true));
    }
}

/// The tree has every leaf at depth `d`.
pub open spec fn complete<T>(t: Quadtree<T>, d: nat) -> bool
    decreases t,
{
    match t {
        Quadtree::Leaf(_) => d == 0,
        Quadtree::Node(a, b, c, d2) => d > 0 && complete(*a, (d - 1) as nat) && complete(
            *b,
            (d - 1) as nat,
        ) && complete(*c, (d - 1) as nat) && complete(*d2, (d - 1) as nat),
    }
}

/// When `evaluate` reports every block too far, the tree that
/// `make_quadtree` builds from `level` has all its leaves at level
/// `maximum_range_splits + 1` (with `minimum_range_splits` at most
/// `maximum_range_splits`).
pub proof fn law_always_far_cuts_to_the_maximum<T>(
    t: Quadtree<T>,
    ens: spec_fn(RangeBlockLocation, usize, T, bool) -> bool,
    rb: RangeBlockLocation,
    s: QuadtreeSettings,
    level: nat,
)
    requires
        made_by(t, ens, rb, s, level),
        forall|b: RangeBlockLocation, l: usize, x: T, f: bool| #[trigger] ens(b, l, x, f) ==> f,
        s.minimum_range_splits <= s.maximum_range_splits,
        level <= s.maximum_range_splits + 1,
    ensures
        complete(t, (s.maximum_range_splits + 1 - level) as nat),
    decreases t,
{
    match t {
        Quadtree::Leaf(label) => {
            let f = choose|f: bool|
                #[trigger] ens(rb, level as usize, label, f) && !(f && level - 1
                    < s.maximum_range_splits);
            assert(ens(rb, level as usize, label, f));
        },
        Quadtree::Node(a, b, c, d) => {
            if level > s.minimum_range_splits {
                let l = choose|l: T| #[trigger] ens(rb, level as usize, l, true);
                assert(ens(rb, level as usize, l, true));
            }
            law_always_far_cuts_to_the_maximum(*a, ens, quadrant_tl(rb), s, level + 1);
            law_always_far_cuts_to_the_maximum(*b, ens, quadrant_tr(rb), s, level + 1);
            law_always_far_cuts_to_the_maximum(*c, ens, quadrant_bl(rb), s, level + 1);
            law_always_far_cuts_to_the_maximum(*d, ens, quadrant_br(rb), s, level + 1);
        },
    }
}

/// Builds the quadtree partition of the block `range_block`: blocks at
/// levels up to `minimum_range_splits` are cut into their four quadrants;
/// a deeper block is handed to `evaluate`, which gives the label of the leaf
/// it becomes and whether it lies too far from every candidate; such a block
/// is cut again while its level minus one is below `maximum_range_splits`.
pub fn make_quadtree<T: Copy, F: Fn(RangeBlockLocation, usize) -> (T, bool)>(
    range_block: RangeBlockLocation,
    s: QuadtreeSettings,
    level: usize,
    evaluate: &F,
) -> (r: Quadtree<T>)
    requires
        block_ends_fit(range_block),
        deepest_cut(s) < usize::MAX,
        forall|b: RangeBlockLocation, l: usize| evaluate.requires((b, l)),
    ensures
        made_by(r, ensures_of(*evaluate), range_block, s, level as nat),
        level <= s.minimum_range_splits ==> r is Node,
        level > s.minimum_range_splits && level - 1 < s.maximum_range_splits && (forall|
            x: T,
            f: bool,
        | #[trigger] evaluate.ensures((range_block, level), (x, f)) ==> f) ==> r is Node,
        level > s.minimum_range_splits && (level - 1 >= s.maximum_range_splits || forall|
            x: T,
            f: bool,
        | #[trigger] evaluate.ensures((range_block, level), (x, f)) ==> !f) ==> r is Leaf,
    decreases deepest_cut(s) + 1 - level,
{
    let ghost ens = ensures_of(*evaluate);
    if level <= s.minimum_range_splits {
        let c1 = make_quadtree(tl(range_block), s, level + 1, evaluate);
        let c2 = make_quadtree(tr(range_block), s, level + 1, evaluate);
        let c3 = make_quadtree(bl(range_block), s, level + 1, evaluate);
        let c4 = make_quadtree(br(range_block), s, level + 1, evaluate);
        proof {
            let l: T = arbitrary();
            lemma_node_made(c1, c2, c3, c4, ens, range_block, s, level as nat, l);
        }
        return Quadtree::node(c1, c2, c3, c4);
    }
    let (label, far) = evaluate(range_block, level);
    assert(ens(range_block, level, label, far));
    if far && level - 1 < s.maximum_range_splits {
        let c1 = make_quadtree(tl(range_block), s, level + 1, evaluate);
        let c2 = make_quadtree(tr(range_block), s, level + 1, evaluate);
        let c3 = make_quadtree(bl(range_block), s, level + 1, evaluate);
        let c4 = make_quadtree(br(range_block), s, level + 1, evaluate);
        proof {
            lemma_node_made(c1, c2, c3, c4, ens, range_block, s, level as nat, label);
        }
        Quadtree::node(c1, c2, c3, c4)
    } else {
        proof {
            lemma_leaf_made(label, ens, range_block, s, level as nat, far);
        }
        Quadtree::leaf(label)
    }
}

/// A leaf whose label `evaluate` gave for a block it did not report too
/// far, or that may not be cut any deeper, is what `make_quadtree` builds.
proof fn lemma_leaf_made<T>(
    label: T,
    ens: spec_fn(RangeBlockLocation, usize, T, bool) -> bool,
    rb: RangeBlockLocation,
    s: QuadtreeSettings,
    level: nat,
    far: bool,
)
    requires
        level > s.minimum_range_splits,
        ens(rb, level as usize, label, far),
        !(far && level - 1 < s.maximum_range_splits),
    ensures
        made_by(Quadtree::Leaf(label), ens, rb, s, level),
{
    let t = Quadtree::Leaf(label);
    assert(t matches Quadtree::Leaf(l) && l == label);
    assert(made_by(t, ens, rb, s, level) == (level > s.minimum_range_splits && exists|far: bool|
                #[trigger] ens(rb, level as usize, label, far) && !(far && level - 1
                    < s.maximum_range_splits)));
}

/// A node over four subtrees built for the quadrants is what `make_quadtree`
/// builds for a block it must cut, or one `evaluate` reported too far while
/// it may still be cut.
proof fn lemma_node_made<T>(
    a: Quadtree<T>,
    b: Quadtree<T>,
    c: Quadtree<T>,
    d: Quadtree<T>,
    ens: spec_fn(RangeBlockLocation, usize, T, bool) -> bool,
    rb: RangeBlockLocation,
    s: QuadtreeSettings,
    level: nat,
    label: T,
)
    requires
        level <= s.minimum_range_splits || (level - 1 < s.maximum_range_splits && ens(
            rb,
            level as usize,
            label,
            true,
        )),
        made_by(a, ens, quadrant_tl(rb), s, level + 1),
        made_by(b, ens, quadrant_tr(rb), s, level + 1),
        made_by(c, ens, quadrant_bl(rb), s, level + 1),
        made_by(d, ens, quadrant_br(rb), s, level + 1),
    ensures
        made_by(Quadtree::Node(Box::new(a), Box::new(b), Box::new(c), Box::new(d)), ens, rb, s, level),
{
    let t = Quadtree::Node(Box::new(a), Box::new(b), Box::new(c), Box::new(d));
    assert(made_by(t, ens, rb, s, level) == ((level <= s.minimum_range_splits || (level - 1
        < s.maximum_range_splits && exists|l: T| #[trigger] ens(rb, level as usize, l, true)))
        && made_by(a, ens, quadrant_tl(rb), s, level + 1) && made_by(
        b,
        ens,
        quadrant_tr(rb),
        s,
        level + 1,
    ) && made_by(c, ens, quadrant_bl(rb), s, level + 1) && made_by(
        d,
        ens,
        quadrant_br(rb),
        s,
        level + 1,
    )));
}

/// Block `k` of an image of `height` rows and `width` columns cut into
/// `2^level` equal parts along each axis, the blocks counted row by row.
pub open spec fn index_block(height: nat, width: nat, level: nat, k: int) -> RangeBlockLocation {
    let number = pow2(level) as int;
    let (n, m) = (height as int / number, width as int / number);
    RangeBlockLocation {
        pos: ((k / number * n) as usize, (k % number * m) as usize),
        size: (n as usize, m as usize),
    }
}

/// The blocks from which the index of candidate domain blocks for `level`
/// is filled: the image cut into `2^level` equal parts along each axis,
/// block `i * 2^level + j` in part row `i` and part column `j`.
pub fn index_blocks(height: usize, width: usize, level: usize) -> (r: Vec<RangeBlockLocation>)
    requires
        level + 1 < usize::BITS,
        (height as nat) % pow2(level as nat + 1) == 0,
        (width as nat) % pow2(level as nat + 1) == 0,
    ensures
        r@ == Seq::new(
            pow2(level as nat) * pow2(level as nat),
            |k: int| index_block(height as nat, width as nat, level as nat, k),
        ),
{
    proof {
        lemma_usize_pow2_no_overflow(level as nat);
        lemma_usize_shl_is_mul(1, level);
    }
    let number: usize = 1usize << level;
    let n = height / number;
    let m = width / number;
    let ghost g = Seq::new(
        pow2(level as nat) * pow2(level as nat),
        |k: int| index_block(height as nat, width as nat, level as nat, k),
    );
    proof {
        lemma_fundamental_div_mod(height as int, number as int);
        lemma_fundamental_div_mod(width as int, number as int);
    }
    let mut v: Vec<RangeBlockLocation> = Vec::new();
    let mut i: usize = 0;
    while i < number
        invariant
            number == pow2(level as nat),
            number > 0,
            n == height / number,
            m == width / number,
            number * n <= height,
            number * m <= width,
            g == Seq::new(
                pow2(level as nat) * pow2(level as nat),
                |k: int| index_block(height as nat, width as nat, level as nat, k),
            ),
            i <= number,
            v@ == g.subrange(0, i * number),
            i * number <= number * number,
        decreases number - i,
    {
        proof {
            lemma_mul_inequality(i as int, number - 1, n as int);
            lemma_mul_is_distributive_sub_other_way(n as int, number as int, 1);
            lemma_mul_is_commutative(n as int, number as int);
            lemma_mul_is_distributive_add_other_way(number as int, i as int, 1);
            lemma_mul_inequality(i as int + 1, number as int, number as int);
        }
        let mut j: usize = 0;
        while j < number
            invariant
                number == pow2(level as nat),
                number > 0,
                n == height / number,
                m == width / number,
                number * m <= width,
                g == Seq::new(
                    pow2(level as nat) * pow2(level as nat),
                    |k: int| index_block(height as nat, width as nat, level as nat, k),
                ),
                i < number,
                i * n <= height,
                j <= number,
                v@ == g.subrange(0, i * number + j),
                i * number + number <= number * number,
            decreases number - j,
        {
            proof {
                lemma_mul_inequality(j as int, number - 1, m as int);
                lemma_mul_is_distributive_sub_other_way(m as int, number as int, 1);
                lemma_mul_is_commutative(m as int, number as int);
                lemma_flat_index(i as int, j as int, number as int);
            }
            v.push(RangeBlockLocation { pos: (i * n, j * m), size: (n, m) });
            assert(v@ =~= g.subrange(0, i * number + j + 1));
            j = j + 1;
        }
        proof {
            lemma_mul_is_distributive_add_other_way(number as int, i as int, 1);
            lemma_mul_inequality(i as int + 1, number as int, number as int);
        }
        i = i + 1;
    }
    assert(v@ =~= g);
    v
}

/// The domain block that entry `index` of the candidate index names when
/// the quadtree asks about a block at `level`: block `index` of the image cut
/// into `2^(level - 1)` parts along each axis, unturned and unflipped.
pub fn candidate_block(height: usize, width: usize, level: usize, index: usize) -> (r:
    DomainBlockLocation)
    requires
        1 <= level,
        level - 1 < usize::BITS,
        index < pow2((level - 1) as nat) * pow2((level - 1) as nat),
    ensures
        r.pos == index_block(height as nat, width as nat, (level - 1) as nat, index as int).pos,
        r.size == index_block(height as nat, width as nat, (level - 1) as nat, index as int).size,
        r.rotation == Rotation::Zero,
        !r.flipped,
        r.pos.0 + r.size.0 <= height,
        r.pos.1 + r.size.1 <= width,
{
    proof {
        lemma_usize_pow2_no_overflow((level - 1) as nat);
        lemma_usize_shl_is_mul(1, (level - 1) as usize);
    }
    let number: usize = 1usize << (level - 1);
    let size = (height / number, width / number);
    let q = index / number;
    let s = index % number;
    proof {
        lemma_fundamental_div_mod(height as int, number as int);
        lemma_fundamental_div_mod(width as int, number as int);
        lemma_multiply_divide_lt(index as int, number as int, number as int);
        lemma_mul_inequality(q as int, number - 1, size.0 as int);
        lemma_mul_inequality(s as int, number - 1, size.1 as int);
        lemma_mul_is_distributive_sub_other_way(size.0 as int, number as int, 1);
        lemma_mul_is_distributive_sub_other_way(size.1 as int, number as int, 1);
        lemma_mul_is_commutative(size.0 as int, number as int);
        lemma_mul_is_commutative(size.1 as int, number as int);
        lemma_mul_is_commutative(size.0 as int, q as int);
        lemma_mul_is_commutative(size.1 as int, s as int);
    }
    DomainBlockLocation {
        pos: (size.0 * q, size.1 * s),
        rotation: Rotation::Zero,
        flipped: false,
        size,
    }
}

/// The domain block that stands in for a range block `rb` that no candidate
/// matches: at the origin, twice as large as `rb`, unturned and unflipped.
pub fn fallback_block(rb: RangeBlockLocation) -> (r: DomainBlockLocation)
    requires
        2 * rb.size.0 <= usize::MAX,
        2 * rb.size.1 <= usize::MAX,
    ensures
        r == (DomainBlockLocation {
            pos: (0, 0),
            size: ((2 * rb.size.0) as usize, (2 * rb.size.1) as usize),
            rotation: Rotation::Zero,
            flipped: false,
        }),
{
    DomainBlockLocation {
        pos: (0, 0),
        size: (2 * rb.size.0, 2 * rb.size.1),
        rotation: Rotation::Zero,
        flipped: false,
    }
}

} // verus!
