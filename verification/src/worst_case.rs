//! The blocks used in the search for the images that fractal compression
//! reproduces worst: a square image cut into a grid of range blocks of side
//! `width >> divisions`, and domain blocks twice as large laid edge to edge
//! below the last full block.
use crate::naive::{
    count_steps, grid_blocks, lemma_flat_index, lemma_steps_below, range_block_grid, steps_below,
};
use crate::prelude::{DomainBlockLocation, RangeBlockLocation, Rotation};
use vstd::arithmetic::div_mod::*;
use vstd::arithmetic::mul::*;
use vstd::prelude::*;

verus! {

/// The unturned domain blocks of side `dbs` whose corners lie at multiples
/// of `dbs` below `width - dbs` on both axes, row by row.
pub open spec fn square_domain_grid(width: usize, dbs: usize) -> Seq<DomainBlockLocation> {
    let n = steps_below((width - dbs) as nat, dbs as nat);
    Seq::new(
        n * n,
        |k: int|
            DomainBlockLocation {
                pos: ((k / (n as int) * dbs) as usize, (k % (n as int) * dbs) as usize),
                rotation: Rotation::Zero,
                flipped: false,
                size: (dbs, dbs),
            },
    )
}

/// Every domain block of the search is an unturned, unflipped block of side
/// `dbs` whose corner lies at multiples of `dbs` below `width - dbs` on both
/// axes, so inside the image.
pub proof fn law_square_grid_blocks(width: usize, dbs: usize, k: int)
    requires
        0 < dbs <= width,
        0 <= k < square_domain_grid(width, dbs).len(),
    ensures
        square_domain_grid(width, dbs)[k].size == (dbs, dbs),
        square_domain_grid(width, dbs)[k].rotation == Rotation::Zero,
        !square_domain_grid(width, dbs)[k].flipped,
        square_domain_grid(width, dbs)[k].pos.0 % dbs == 0,
        square_domain_grid(width, dbs)[k].pos.1 % dbs == 0,
        square_domain_grid(width, dbs)[k].pos.0 + dbs < width,
        square_domain_grid(width, dbs)[k].pos.1 + dbs < width,
{
    let n = steps_below((width - dbs) as nat, dbs as nat);
    assert(n > 0) by {
        if n == 0 {
            lemma_mul_basics(n as int);
        }
    }
    lemma_multiply_divide_lt(k, n as int, n as int);
    lemma_div_pos_is_pos(k, n as int);
    lemma_mod_bound(k, n as int);
    let a = k / (n as int);
    let b = k % (n as int);
    lemma_steps_below(a as nat, (width - dbs) as nat, dbs as nat);
    lemma_steps_below(b as nat, (width - dbs) as nat, dbs as nat);
    lemma_mod_multiples_basic(a, dbs as int);
    lemma_mod_multiples_basic(b, dbs as int);
}

/// Every pair of multiples of `dbs` below `width - dbs` is the corner of a
/// domain block of the search.
pub proof fn law_square_grid_complete(width: usize, dbs: usize, a: nat, b: nat)
    requires
        0 < dbs <= width,
        a * dbs < width - dbs,
        b * dbs < width - dbs,
    ensures
        exists|k: int|
            0 <= k < square_domain_grid(width, dbs).len() && #[trigger] square_domain_grid(
                width,
                dbs,
            )[k].pos == ((a * dbs) as usize, (b * dbs) as usize),
{
    let n = steps_below((width - dbs) as nat, dbs as nat);
    lemma_steps_below(a, (width - dbs) as nat, dbs as nat);
    lemma_steps_below(b, (width - dbs) as nat, dbs as nat);
    let k = a * n + b;
    assert(k < n * n) by (nonlinear_arith)
        requires
            a < n,
            b < n,
            k == a * n + b,
    ;
    lemma_flat_index(a as int, b as int, n as int);
    assert(square_domain_grid(width, dbs)[k as int].pos == ((a * dbs) as usize, (b * dbs) as usize));
}

/// No two domain blocks of the search share a corner.
pub proof fn law_square_grid_distinct(width: usize, dbs: usize, k1: int, k2: int)
    requires
        0 < dbs <= width,
        0 <= k1 < k2 < square_domain_grid(width, dbs).len(),
    ensures
        square_domain_grid(width, dbs)[k1].pos != square_domain_grid(width, dbs)[k2].pos,
{
    let g = square_domain_grid(width, dbs);
    let n = steps_below((width - dbs) as nat, dbs as nat) as int;
    law_square_grid_blocks(width, dbs, k1);
    law_square_grid_blocks(width, dbs, k2);
    lemma_div_pos_is_pos(k1, n);
    lemma_div_pos_is_pos(k2, n);
    lemma_mod_bound(k1, n);
    lemma_mod_bound(k2, n);
    if g[k1].pos == g[k2].pos {
        let (a1, b1, a2, b2) = (k1 / n, k1 % n, k2 / n, k2 % n);
        lemma_mul_nonnegative(a1, dbs as int);
        lemma_mul_nonnegative(a2, dbs as int);
        lemma_mul_nonnegative(b1, dbs as int);
        lemma_mul_nonnegative(b2, dbs as int);
        lemma_multiply_divide_lt(k1, n, n);
        lemma_multiply_divide_lt(k2, n, n);
        lemma_steps_below(a1 as nat, (width - dbs) as nat, dbs as nat);
        lemma_steps_below(a2 as nat, (width - dbs) as nat, dbs as nat);
        lemma_steps_below(b1 as nat, (width - dbs) as nat, dbs as nat);
        lemma_steps_below(b2 as nat, (width - dbs) as nat, dbs as nat);
        assert(a1 * dbs == a2 * dbs && b1 * dbs == b2 * dbs);
        assert(a1 == a2 && b1 == b2) by (nonlinear_arith)
            requires
                a1 * dbs == a2 * dbs,
                b1 * dbs == b2 * dbs,
                dbs > 0,
        ;
        lemma_fundamental_div_mod(k1, n);
        lemma_fundamental_div_mod(k2, n);
    }
}

/// The range blocks and the domain blocks of a square image of side `width`
/// cut `divisions` times: range blocks of side `width >> divisions` on a
/// grid that covers the image, and domain blocks of side
/// `width >> (divisions - 1)` at steps of their own side.
pub fn search_blocks(width: usize, divisions: usize) -> (r: (
    Vec<RangeBlockLocation>,
    Vec<DomainBlockLocation>,
))
    requires
        1 <= divisions < usize::BITS,
        width >> divisions > 0,
        width % (width >> ((divisions - 1) as usize)) == 0,
    ensures
        r.0@ == grid_blocks(
            (width / (width >> divisions)) as nat,
            (width / (width >> divisions)) as nat,
            width >> divisions,
        ),
        r.1@ == square_domain_grid(width, width >> ((divisions - 1) as usize)),
        forall|k1: int, k2: int|
            0 <= k1 < k2 < r.1@.len() ==> #[trigger] r.1@[k1].pos != #[trigger] r.1@[k2].pos,
        forall|k: int|
            0 <= k < r.1@.len() ==> #[trigger] r.1@[k].pos.0 + (width >> ((divisions - 1) as usize))
                < width && r.1@[k].pos.1 + (width >> ((divisions - 1) as usize)) < width,
{
    let db_size = width >> (divisions - 1);
    let rb_size = width >> divisions;
    let ghost d1 = (divisions - 1) as usize;
    assert(db_size > 0 && db_size <= width) by (bit_vector)
        requires
            db_size == width >> d1,
            rb_size == width >> divisions,
            d1 + 1 == divisions,
            divisions < usize::BITS,
            rb_size > 0,
    ;
    let range_blocks = range_block_grid(width, width, rb_size);
    let n = count_steps(width - db_size, db_size);
    let ghost g = square_domain_grid(width, db_size);
    let mut v: Vec<DomainBlockLocation> = Vec::new();
    let mut a: usize = 0;
    while a < n
        invariant
            g == square_domain_grid(width, db_size),
            db_size > 0,
            db_size <= width,
            n == steps_below((width - db_size) as nat, db_size as nat),
            n > 0 ==> (n - 1) * db_size < width - db_size,
            a <= n,
            v@ == g.subrange(0, a * n),
            a * n <= n * n,
        decreases n - a,
    {
        proof {
            lemma_mul_inequality(a as int, n - 1, db_size as int);
            lemma_mul_inequality(a as int + 1, n as int, n as int);
            lemma_mul_is_distributive_add_other_way(n as int, a as int, 1);
        }
        let i = a * db_size;
        let mut b: usize = 0;
        while b < n
            invariant
                g == square_domain_grid(width, db_size),
                db_size > 0,
                db_size <= width,
                n == steps_below((width - db_size) as nat, db_size as nat),
                n > 0 ==> (n - 1) * db_size < width - db_size,
                a < n,
                i == a * db_size,
                b <= n,
                v@ == g.subrange(0, a * n + b),
                a * n + n <= n * n,
            decreases n - b,
        {
            proof {
                lemma_mul_inequality(b as int, n - 1, db_size as int);
                lemma_flat_index(a as int, b as int, n as int);
            }
            let j = b * db_size;
            v.push(
                DomainBlockLocation {
                    pos: (i, j),
                    rotation: Rotation::Zero,
                    flipped: false,
                    size: (db_size, db_size),
                },
            );
            assert(v@ =~= g.subrange(0, a * n + b + 1));
            b = b + 1;
        }
        proof {
            lemma_mul_is_distributive_add_other_way(n as int, a as int, 1);
        }
        a = a + 1;
    }
    assert(v@ =~= g);
    proof {
        assert forall|k1: int, k2: int| 0 <= k1 < k2 < v@.len() implies #[trigger] v@[k1].pos
            != #[trigger] v@[k2].pos by {
            law_square_grid_distinct(width, db_size, k1, k2);
        }
        assert forall|k: int| 0 <= k < v@.len() implies #[trigger] v@[k].pos.0 + db_size < width
            && v@[k].pos.1 + db_size < width by {
            law_square_grid_blocks(width, db_size, k);
        }
    }
    (range_blocks, v)
}

} // verus!
