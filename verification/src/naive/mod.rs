//! The fixed-grid scheme: range blocks of one size on a regular grid, and
//! domain blocks of a larger size at regular steps, in every rotation.
pub mod compression;
pub mod io;

use crate::prelude::{
    is_rotation, rotate_block, same_cells, Arr, DomainBlockLocation, RangeBlockLocation, Rotation,
};
use vstd::arithmetic::div_mod::*;
use vstd::arithmetic::mul::*;
use vstd::prelude::*;

verus! {

/// The sizes and steps of the fixed grid.
#[derive(Clone, Copy, Hash, Debug, PartialEq, Eq, Structural)]
pub struct NaiveCompressionSettings {
    pub range_block_size: usize,
    pub domain_block_size: usize,
    pub domain_block_stepx: usize,
    pub domain_block_stepy: usize,
    pub coord_bits: usize,
}

impl Default for NaiveCompressionSettings {
    fn default() -> (r: NaiveCompressionSettings)
        ensures
            r == (NaiveCompressionSettings {
                range_block_size: 0,
                domain_block_size: 0,
                domain_block_stepx: 0,
                domain_block_stepy: 0,
                coord_bits: 0,
            }),
    {
        NaiveCompressionSettings {
            range_block_size: 0,
            domain_block_size: 0,
            domain_block_stepx: 0,
            domain_block_stepy: 0,
            coord_bits: 0,
        }
    }
}

/// The range block in row `i` and column `j` of the grid of blocks of size
/// `rbs`.
pub open spec fn grid_block(i: int, j: int, rbs: usize) -> RangeBlockLocation {
    RangeBlockLocation { pos: ((i * rbs) as usize, (j * rbs) as usize), size: (rbs, rbs) }
}

/// The blocks of a grid of `hn` rows and `wn` columns, row by row.
pub open spec fn grid_blocks(hn: nat, wn: nat, rbs: usize) -> Seq<RangeBlockLocation> {
    Seq::new(hn * wn, |k: int| grid_block(k / (wn as int), k % (wn as int), rbs))
}

/// How many multiples of `step` lie below `lim`.
pub open spec fn steps_below(lim: nat, step: nat) -> nat {
    if lim % step == 0 {
        lim / step
    } else {
        lim / step + 1
    }
}

/// The rotations in the order the grid lists them.
pub open spec fn rotation_at(k: int) -> Rotation {
    if k == 0 {
        Rotation::Zero
    } else if k == 1 {
        Rotation::Quarter
    } else if k == 2 {
        Rotation::Half
    } else {
        Rotation::ThreeQuarter
    }
}

/// The domain blocks of the grid: for each corner row below `h - dbs` in
/// steps of `sy`, each corner column below `w - dbs` in steps of `sx`, and
/// each of the four rotations in turn, an unflipped block of size `dbs`.
pub open spec fn domain_grid(h: usize, w: usize, dbs: usize, sx: usize, sy: usize) -> Seq<
    DomainBlockLocation,
> {
    let ni = steps_below((h - dbs) as nat, sy as nat);
    let nj = steps_below((w - dbs) as nat, sx as nat);
    Seq::new(
        ni * nj * 4,
        |k: int|
            DomainBlockLocation {
                pos: (((k / 4) / (nj as int) * sy) as usize, ((k / 4) % (nj as int) * sx) as usize),
                rotation: rotation_at(k % 4),
                flipped: false,
                size: (dbs, dbs),
            },
    )
}

/// `i * r` lies below `n` when `i` is below the number of whole blocks of
/// size `r` in `n`.
pub proof fn lemma_block_start_fits(i: nat, n: nat, r: nat)
    requires
        r > 0,
        i < n / r,
    ensures
        i * r + r <= n,
{
    lemma_fundamental_div_mod(n as int, r as int);
    lemma_mul_inequality(i as int + 1, (n / r) as int, r as int);
    lemma_mul_is_distributive_add_other_way(r as int, i as int, 1);
    lemma_mul_is_commutative((n / r) as int, r as int);
}

/// The flat index `i * wn + j` of a grid cell gives back its row and column.
pub proof fn lemma_flat_index(i: int, j: int, wn: int)
    requires
        0 <= i,
        0 <= j < wn,
    ensures
        (i * wn + j) / wn == i,
        (i * wn + j) % wn == j,
{
    lemma_fundamental_div_mod_converse(i * wn + j, wn, i, j);
}

/// The range blocks of the grid that covers an image of `height` rows and
/// `width` columns with blocks of size `rbs`, row by row.
pub fn range_block_grid(height: usize, width: usize, rbs: usize) -> (r: Vec<RangeBlockLocation>)
    requires
        rbs > 0,
    ensures
        r@ == grid_blocks((height / rbs) as nat, (width / rbs) as nat, rbs),
{
    let hn = height / rbs;
    let wn = width / rbs;
    let ghost g = grid_blocks(hn as nat, wn as nat, rbs);
    let mut v: Vec<RangeBlockLocation> = Vec::new();
    let mut i: usize = 0;
    while i < hn
        invariant
            rbs > 0,
            hn == height / rbs,
            wn == width / rbs,
            g == grid_blocks(hn as nat, wn as nat, rbs),
            i <= hn,
            v@ == g.subrange(0, i * wn),
            i * wn <= hn * wn,
        decreases hn - i,
    {
        proof {
            lemma_block_start_fits(i as nat, height as nat, rbs as nat);
        }
        let mut j: usize = 0;
        while j < wn
            invariant
                rbs > 0,
                hn == height / rbs,
                wn == width / rbs,
                g == grid_blocks(hn as nat, wn as nat, rbs),
                i < hn,
                j <= wn,
                i * rbs + rbs <= height,
                v@ == g.subrange(0, i * wn + j),
            decreases wn - j,
        {
            proof {
                lemma_block_start_fits(j as nat, width as nat, rbs as nat);
                lemma_flat_index(i as int, j as int, wn as int);
                lemma_mul_inequality(i as int + 1, hn as int, wn as int);
                lemma_mul_is_distributive_add_other_way(wn as int, i as int, 1);
            }
            v.push(RangeBlockLocation { pos: (i * rbs, j * rbs), size: (rbs, rbs) });
            assert(v@ =~= g.subrange(0, i * wn + j + 1));
            j = j + 1;
        }
        proof {
            lemma_mul_is_distributive_add_other_way(wn as int, i as int, 1);
            lemma_mul_inequality(i as int + 1, hn as int, wn as int);
        }
        i = i + 1;
    }
    assert(v@ =~= g);
    v
}

/// The number of multiples of `step` below `lim`, and the fact that each of
/// them lies below `lim`.
pub(crate) fn count_steps(lim: usize, step: usize) -> (n: usize)
    requires
        step > 0,
    ensures
        n == steps_below(lim as nat, step as nat),
        n > 0 ==> (n - 1) * step < lim,
{
    proof {
        let n = steps_below(lim as nat, step as nat);
        if n > 0 {
            let a = (n - 1) as nat;
            lemma_fundamental_div_mod(lim as int, step as int);
            if a < lim / step {
                lemma_block_start_fits(a, lim as nat, step as nat);
            } else {
                assert(a == lim / step);
                lemma_mul_is_commutative(a as int, step as int);
            }
        }
    }
    if lim % step == 0 {
        lim / step
    } else {
        proof {
            assert(step >= 2);
            lemma_div_is_ordered_by_denominator(lim as int, 2, step as int);
        }
        lim / step + 1
    }
}

/// The domain blocks of the grid over an image of `height` rows and `width`
/// columns: corners at steps of `domain_block_stepy` rows and
/// `domain_block_stepx` columns below the last full block, each in the four
/// rotations.
pub fn domain_block_grid(height: usize, width: usize, params: NaiveCompressionSettings) -> (r: Vec<
    DomainBlockLocation,
>)
    requires
        params.domain_block_size <= height,
        params.domain_block_size <= width,
        params.domain_block_stepx > 0,
        params.domain_block_stepy > 0,
    ensures
        r@ == domain_grid(
            height,
            width,
            params.domain_block_size,
            params.domain_block_stepx,
            params.domain_block_stepy,
        ),
        forall|k: int|
            0 <= k < r@.len() ==> #[trigger] r@[k].pos.0 + params.domain_block_size < height
                && r@[k].pos.1 + params.domain_block_size < width,
{
    let dbs = params.domain_block_size;
    let sx = params.domain_block_stepx;
    let sy = params.domain_block_stepy;
    let ni = count_steps(height - dbs, sy);
    let nj = count_steps(width - dbs, sx);
    let ghost g = domain_grid(height, width, dbs, sx, sy);
    let mut v: Vec<DomainBlockLocation> = Vec::new();
    let mut a: usize = 0;
    while a < ni
        invariant
            g == domain_grid(height, width, dbs, sx, sy),
            ni == steps_below((height - dbs) as nat, sy as nat),
            nj == steps_below((width - dbs) as nat, sx as nat),
            ni > 0 ==> (ni - 1) * sy < height - dbs,
            nj > 0 ==> (nj - 1) * sx < width - dbs,
            a <= ni,
            v@ == g.subrange(0, a * nj * 4),
            a * nj <= ni * nj,
            sx > 0,
            sy > 0,
        decreases ni - a,
    {
        proof {
            lemma_mul_inequality(a as int, ni - 1, sy as int);
            lemma_mul_inequality(a as int + 1, ni as int, nj as int);
            lemma_mul_is_distributive_add_other_way(nj as int, a as int, 1);
        }
        let i = a * sy;
        let mut b: usize = 0;
        while b < nj
            invariant
                g == domain_grid(height, width, dbs, sx, sy),
                ni == steps_below((height - dbs) as nat, sy as nat),
                nj == steps_below((width - dbs) as nat, sx as nat),
                nj > 0 ==> (nj - 1) * sx < width - dbs,
                a < ni,
                i == a * sy,
                b <= nj,
                v@ == g.subrange(0, (a * nj + b) * 4),
                a * nj + nj <= ni * nj,
                sx > 0,
                sy > 0,
            decreases nj - b,
        {
            proof {
                lemma_mul_inequality(b as int, nj - 1, sx as int);
            }
            let j = b * sx;
            let ghost base = (a * nj + b) * 4;
            proof {
                lemma_flat_index(a as int, b as int, nj as int);
            }
            assert forall|r: int| 0 <= r < 4 implies #[trigger] ((base + r) / 4) == a * nj + b && (
            base + r) % 4 == r by {
                lemma_fundamental_div_mod_converse(base + r, 4, a * nj + b, r);
            }
            v.push(
                DomainBlockLocation {
                    pos: (i, j),
                    rotation: Rotation::Zero,
                    flipped: false,
                    size: (dbs, dbs),
                },
            );
            v.push(
                DomainBlockLocation {
                    pos: (i, j),
                    rotation: Rotation::Quarter,
                    flipped: false,
                    size: (dbs, dbs),
                },
            );
            v.push(
                DomainBlockLocation {
                    pos: (i, j),
                    rotation: Rotation::Half,
                    flipped: false,
                    size: (dbs, dbs),
                },
            );
            v.push(
                DomainBlockLocation {
                    pos: (i, j),
                    rotation: Rotation::ThreeQuarter,
                    flipped: false,
                    size: (dbs, dbs),
                },
            );
            proof {
                assert((base + 0) / 4 == a * nj + b);
                assert((base + 1) / 4 == a * nj + b);
                assert((base + 2) / 4 == a * nj + b);
                assert((base + 3) / 4 == a * nj + b);
                lemma_mul_inequality(a as int + 1, ni as int, nj as int);
                assert(v@ =~= g.subrange(0, (a * nj + b + 1) * 4));
            }
            b = b + 1;
        }
        proof {
            lemma_mul_is_distributive_add_other_way(nj as int, a as int, 1);
            if a + 1 < ni {
                lemma_mul_inequality(a as int + 2, ni as int, nj as int);
                lemma_mul_is_distributive_add_other_way(nj as int, a as int + 1, 1);
            }
        }
        a = a + 1;
    }
    assert(v@ =~= g);
    assert forall|k: int| 0 <= k < v@.len() implies #[trigger] v@[k].pos.0 + dbs < height
        && v@[k].pos.1 + dbs < width by {
        law_domain_grid_blocks(height, width, dbs, sx, sy, k);
    }
    v
}

/// Whether a domain block of `dim` rows and columns is compared with a range
/// block of `size`: larger on both axes, and at most four times as large.
pub fn domain_size_matches(dim: (usize, usize), size: (usize, usize)) -> (r: bool)
    ensures
        r == (dim.0 > size.0 && dim.1 > size.1 && dim.0 <= 4 * size.0 && dim.1 <= 4 * size.1),
{
    let within0 = dim.0 / 4 < size.0 || (dim.0 / 4 == size.0 && dim.0 % 4 == 0);
    let within1 = dim.1 / 4 < size.1 || (dim.1 / 4 == size.1 && dim.1 % 4 == 0);
    dim.0 > size.0 && dim.1 > size.1 && within0 && within1
}

/// A multiple `a * step` lies below `lim` exactly when `a` is below the
/// number of multiples of `step` below `lim`.
pub proof fn lemma_steps_below(a: nat, lim: nat, step: nat)
    requires
        step > 0,
    ensures
        a < steps_below(lim, step) <==> a * step < lim,
{
    lemma_fundamental_div_mod(lim as int, step as int);
    let q = lim / step;
    let r = lim % step;
    assert(lim == step * q + r);
    if a < q {
        assert(a * step < lim) by (nonlinear_arith)
            requires
                a < q,
                lim == step * q + r,
                r >= 0,
                step > 0,
        ;
    } else if a == q {
        assert(a * step == lim - r) by (nonlinear_arith)
            requires
                a == q,
                lim == step * q + r,
        ;
    } else {
        assert(a * step >= lim) by (nonlinear_arith)
            requires
                a >= q + 1,
                lim == step * q + r,
                r < step,
                step > 0,
        ;
    }
}

/// The number of a rotation in the order the grid lists them.
spec fn rotation_index(rot: Rotation) -> int {
    match rot {
        Rotation::Zero => 0,
        Rotation::Quarter => 1,
        Rotation::Half => 2,
        Rotation::ThreeQuarter => 3,
    }
}

/// Every block of the domain grid is an unflipped block of side `dbs` whose
/// corner lies at a multiple of `sy` below `h - dbs` and at a multiple of
/// `sx` below `w - dbs`, so inside the image.
pub proof fn law_domain_grid_blocks(h: usize, w: usize, dbs: usize, sx: usize, sy: usize, k: int)
    requires
        sx > 0,
        sy > 0,
        dbs <= h,
        dbs <= w,
        0 <= k < domain_grid(h, w, dbs, sx, sy).len(),
    ensures
        domain_grid(h, w, dbs, sx, sy)[k].size == (dbs, dbs),
        !domain_grid(h, w, dbs, sx, sy)[k].flipped,
        domain_grid(h, w, dbs, sx, sy)[k].pos.0 % sy == 0,
        domain_grid(h, w, dbs, sx, sy)[k].pos.0 + dbs < h,
        domain_grid(h, w, dbs, sx, sy)[k].pos.1 % sx == 0,
        domain_grid(h, w, dbs, sx, sy)[k].pos.1 + dbs < w,
{
    let ni = steps_below((h - dbs) as nat, sy as nat);
    let nj = steps_below((w - dbs) as nat, sx as nat);
    let c = k / 4;
    assert(k < (ni * nj) * 4) by (nonlinear_arith)
        requires
            k < ni * nj * 4,
    ;
    lemma_multiply_divide_lt(k, 4, (ni * nj) as int);
    lemma_mul_is_commutative(4, (ni * nj) as int);
    assert(nj > 0) by {
        if nj == 0 {
            lemma_mul_basics(ni as int);
        }
    }
    lemma_multiply_divide_lt(c, nj as int, ni as int);
    lemma_mul_is_commutative(nj as int, ni as int);
    let a = c / (nj as int);
    let b = c % (nj as int);
    lemma_div_pos_is_pos(k, 4);
    lemma_div_pos_is_pos(c, nj as int);
    lemma_mod_bound(c, nj as int);
    lemma_steps_below(a as nat, (h - dbs) as nat, sy as nat);
    lemma_steps_below(b as nat, (w - dbs) as nat, sx as nat);
    lemma_mod_multiples_basic(a, sy as int);
    lemma_mod_multiples_basic(b, sx as int);
}

/// Every corner at a multiple of `sy` below `h - dbs` and a multiple of `sx`
/// below `w - dbs` is in the domain grid, as an unflipped block of side
/// `dbs`, in each of the four rotations.
pub proof fn law_domain_grid_complete(
    h: usize,
    w: usize,
    dbs: usize,
    sx: usize,
    sy: usize,
    a: nat,
    b: nat,
    rot: Rotation,
)
    requires
        sx > 0,
        sy > 0,
        dbs <= h,
        dbs <= w,
        a * sy < h - dbs,
        b * sx < w - dbs,
    ensures
        exists|k: int|
            0 <= k < domain_grid(h, w, dbs, sx, sy).len() && #[trigger] domain_grid(
                h,
                w,
                dbs,
                sx,
                sy,
            )[k] == (DomainBlockLocation {
                pos: ((a * sy) as usize, (b * sx) as usize),
                rotation: rot,
                flipped: false,
                size: (dbs, dbs),
            }),
{
    let g = domain_grid(h, w, dbs, sx, sy);
    let ni = steps_below((h - dbs) as nat, sy as nat);
    let nj = steps_below((w - dbs) as nat, sx as nat);
    lemma_steps_below(a, (h - dbs) as nat, sy as nat);
    lemma_steps_below(b, (w - dbs) as nat, sx as nat);
    let r = rotation_index(rot);
    let c = a * nj + b;
    let k = c * 4 + r;
    assert(c < ni * nj) by (nonlinear_arith)
        requires
            a < ni,
            b < nj,
            c == a * nj + b,
    ;
    assert(k < ni * nj * 4) by (nonlinear_arith)
        requires
            c < ni * nj,
            k == c * 4 + r,
            0 <= r < 4,
    ;
    lemma_fundamental_div_mod_converse(k, 4, c as int, r);
    lemma_flat_index(a as int, b as int, nj as int);
    assert(g[k].rotation == rot);
    assert(g[k] == (DomainBlockLocation {
        pos: ((a * sy) as usize, (b * sx) as usize),
        rotation: rot,
        flipped: false,
        size: (dbs, dbs),
    }));
}

/// The range blocks and the domain blocks that the fixed-grid scheme compares
/// on an image of `height` rows and `width` columns: the grid of range
/// blocks, which tiles the image, and the grid of domain blocks in their
/// four rotations. The domain blocks must be larger than the range blocks,
/// and the range block size must divide both sides of the image.
pub fn compress_blocks(height: usize, width: usize, params: NaiveCompressionSettings) -> (r: (
    Vec<RangeBlockLocation>,
    Vec<DomainBlockLocation>,
))
    requires
        params.domain_block_size > params.range_block_size,
        params.range_block_size > 0,
        height % params.range_block_size == 0,
        width % params.range_block_size == 0,
        params.domain_block_size <= height,
        params.domain_block_size <= width,
        params.domain_block_stepx > 0,
        params.domain_block_stepy > 0,
    ensures
        r.0@ == grid_blocks(
            (height / params.range_block_size) as nat,
            (width / params.range_block_size) as nat,
            params.range_block_size,
        ),
        r.1@ == domain_grid(
            height,
            width,
            params.domain_block_size,
            params.domain_block_stepx,
            params.domain_block_stepy,
        ),
{
    let range_blocks = range_block_grid(height, width, params.range_block_size);
    let domain_blocks = domain_block_grid(height, width, params);
    (range_blocks, domain_blocks)
}

/// When the block size divides both sides of the image, the range blocks of
/// the grid tile it: each pixel lies in exactly one of them.
pub proof fn law_range_grid_tiles(height: usize, width: usize, rbs: usize, x: int, y: int)
    requires
        rbs > 0,
        height % rbs == 0,
        width % rbs == 0,
        0 <= x < height,
        0 <= y < width,
    ensures
        exists|k: int|
            0 <= k < grid_blocks((height / rbs) as nat, (width / rbs) as nat, rbs).len()
                && crate::quadtree::compression::block_contains(
                #[trigger] grid_blocks((height / rbs) as nat, (width / rbs) as nat, rbs)[k],
                x,
                y,
            ),
        forall|k1: int, k2: int|
            0 <= k1 < k2 < grid_blocks((height / rbs) as nat, (width / rbs) as nat, rbs).len()
                ==> !(crate::quadtree::compression::block_contains(
                #[trigger] grid_blocks((height / rbs) as nat, (width / rbs) as nat, rbs)[k1],
                x,
                y,
            ) && crate::quadtree::compression::block_contains(
                #[trigger] grid_blocks((height / rbs) as nat, (width / rbs) as nat, rbs)[k2],
                x,
                y,
            )),
{
    let hn = height / rbs;
    let wn = width / rbs;
    let g = grid_blocks(hn as nat, wn as nat, rbs);
    let i = x / (rbs as int);
    let j = y / (rbs as int);
    lemma_fundamental_div_mod(x, rbs as int);
    lemma_fundamental_div_mod(y, rbs as int);
    lemma_fundamental_div_mod(height as int, rbs as int);
    lemma_fundamental_div_mod(width as int, rbs as int);
    lemma_div_is_ordered(x, height as int, rbs as int);
    lemma_div_is_ordered(y, width as int, rbs as int);
    assert(i < hn) by {
        if i >= hn {
            lemma_mul_inequality(hn as int, i, rbs as int);
            lemma_mul_is_commutative(hn as int, rbs as int);
            lemma_mul_is_commutative(i, rbs as int);
        }
    }
    assert(j < wn) by {
        if j >= wn {
            lemma_mul_inequality(wn as int, j, rbs as int);
            lemma_mul_is_commutative(wn as int, rbs as int);
            lemma_mul_is_commutative(j, rbs as int);
        }
    }
    let k = i * wn + j;
    lemma_flat_index(i, j, wn as int);
    lemma_mul_inequality(i + 1, hn as int, wn as int);
    lemma_mul_is_distributive_add_other_way(wn as int, i, 1);
    lemma_block_start_fits(i as nat, height as nat, rbs as nat);
    lemma_block_start_fits(j as nat, width as nat, rbs as nat);
    lemma_mul_is_commutative(i, rbs as int);
    lemma_mul_is_commutative(j, rbs as int);
    assert(crate::quadtree::compression::block_contains(g[k], x, y));
    assert forall|k1: int, k2: int|
        0 <= k1 < k2 < g.len() implies !(crate::quadtree::compression::block_contains(
        #[trigger] g[k1],
        x,
        y,
    ) && crate::quadtree::compression::block_contains(#[trigger] g[k2], x, y)) by {
        if crate::quadtree::compression::block_contains(g[k1], x, y)
            && crate::quadtree::compression::block_contains(g[k2], x, y) {
            lemma_grid_cell_unique(height, width, rbs, k1, x, y);
            lemma_grid_cell_unique(height, width, rbs, k2, x, y);
        }
    }
}

/// A grid block that holds pixel `(x, y)` is the one at row `x / rbs` and
/// column `y / rbs`.
proof fn lemma_grid_cell_unique(height: usize, width: usize, rbs: usize, k: int, x: int, y: int)
    requires
        rbs > 0,
        0 <= k < grid_blocks((height / rbs) as nat, (width / rbs) as nat, rbs).len(),
        0 <= x,
        0 <= y,
        crate::quadtree::compression::block_contains(
            grid_blocks((height / rbs) as nat, (width / rbs) as nat, rbs)[k],
            x,
            y,
        ),
    ensures
        k == (x / (rbs as int)) * ((width / rbs) as int) + y / (rbs as int),
{
    let hn = (height / rbs) as int;
    let wn = (width / rbs) as int;
    assert(wn > 0) by {
        if wn <= 0 {
            lemma_mul_basics(hn);
        }
    }
    lemma_mul_is_commutative(hn, wn);
    lemma_multiply_divide_lt(k, wn, hn);
    lemma_fundamental_div_mod(k, wn);
    let i = k / wn;
    let j = k % wn;
    lemma_block_start_fits(i as nat, height as nat, rbs as nat);
    lemma_block_start_fits(j as nat, width as nat, rbs as nat);
    lemma_mul_is_commutative(i, rbs as int);
    lemma_mul_is_commutative(j, rbs as int);
    lemma_fundamental_div_mod_converse(x, rbs as int, i, x - i * rbs);
    lemma_fundamental_div_mod_converse(y, rbs as int, j, y - j * rbs);
    lemma_mul_is_commutative(wn, i);
}

/// The image in its four rotations: as it is, turned by a quarter, by a
/// half, and by three quarters.
pub fn create_images<T: Copy>(img: &Arr<T>) -> (r: [Arr<T>; 4])
    requires
        img@.wf(),
    ensures
        forall|k: int| 0 <= k < 4 ==> (#[trigger] r@[k])@.wf(),
        same_cells(r@[0]@, img@),
        is_rotation(img@, Rotation::Quarter, r@[1]@),
        is_rotation(img@, Rotation::Half, r@[2]@),
        is_rotation(img@, Rotation::ThreeQuarter, r@[3]@),
{
    let a0 = rotate_block(img, Rotation::Zero);
    let a1 = rotate_block(img, Rotation::Quarter);
    let a2 = rotate_block(img, Rotation::Half);
    let a3 = rotate_block(img, Rotation::ThreeQuarter);
    [a0, a1, a2, a3]
}

} // verus!
