//! The pixel table that drives the in-place reconstruction of an image:
//! for each pixel, the range block that covers it and that block's
//! transformation.
use crate::naive::lemma_flat_index;
use crate::prelude::{
    block_within, lemma_cell_index, Arr, DomainBlockLocation, RangeBlockLocation, Rotation,
    Transformation,
};
use crate::quadtree::compression::block_contains;
use vstd::arithmetic::div_mod::*;
use vstd::arithmetic::mul::*;
use vstd::prelude::*;

verus! {

/// The entry of a pixel that no range block covers: an empty block at the
/// origin, taken from an empty unturned block with zero contrast and zero
/// brightness.
pub open spec fn empty_entry() -> (RangeBlockLocation, Transformation) {
    (
        RangeBlockLocation { pos: (0, 0), size: (0, 0) },
        (
            DomainBlockLocation { pos: (0, 0), rotation: Rotation::Zero, flipped: false, size: (0, 0) },
            0u32,
            0u32,
        ),
    )
}

/// The last of `entries` whose range block covers the pixel `(i, j)`, or
/// the empty entry when none does.
pub open spec fn covering_entry(
    entries: Seq<(RangeBlockLocation, Transformation)>,
    i: int,
    j: int,
) -> (RangeBlockLocation, Transformation)
    decreases entries.len(),
{
    if entries.len() == 0 {
        empty_entry()
    } else if block_contains(entries.last().0, i, j) {
        entries.last()
    } else {
        covering_entry(entries.drop_last(), i, j)
    }
}

/// The covering entry of each pixel of an image of `height` rows and `width`
/// columns, row by row.
pub open spec fn pixel_entries(
    entries: Seq<(RangeBlockLocation, Transformation)>,
    height: nat,
    width: nat,
) -> Seq<(RangeBlockLocation, Transformation)> {
    Seq::new(
        height * width,
        |u: int| covering_entry(entries, u / (width as int), u % (width as int)),
    )
}

/// When entry `k` is the only one whose range block covers the pixel
/// `(i, j)`, the pixel's covering entry is entry `k`: a table built from
/// blocks that do not overlap gives each pixel its own block's
/// transformation.
pub proof fn law_covering_entry_unique(
    entries: Seq<(RangeBlockLocation, Transformation)>,
    i: int,
    j: int,
    k: int,
)
    requires
        0 <= k < entries.len(),
        block_contains(entries[k].0, i, j),
        forall|q: int|
            0 <= q < entries.len() && q != k ==> !block_contains(#[trigger] entries[q].0, i, j),
    ensures
        covering_entry(entries, i, j) == entries[k],
    decreases entries.len(),
{
    if k < entries.len() - 1 {
        let rest = entries.drop_last();
        assert(!block_contains(entries[entries.len() - 1].0, i, j));
        assert forall|q: int| 0 <= q < rest.len() && q != k implies !block_contains(
            #[trigger] rest[q].0,
            i,
            j,
        ) by {
            assert(rest[q] == entries[q]);
        }
        law_covering_entry_unique(rest, i, j, k);
    }
}

/// The top-left of the two by two source cells that the in-place
/// reconstruction averages for pixel `(i, j)` of range block `rb` mapped
/// from domain block `d`: twice the pixel's offset in the range block, from
/// the domain block's corner; `None` when the pixel lies before the block's
/// corner or the four cells leave an image of `height` rows and `width`
/// columns.
pub fn source_cell(
    rb: RangeBlockLocation,
    d: DomainBlockLocation,
    i: usize,
    j: usize,
    height: usize,
    width: usize,
) -> (r: Option<(usize, usize)>)
    ensures
        r == (if rb.pos.0 <= i && rb.pos.1 <= j && 2 * (i - rb.pos.0) + d.pos.0 + 1 < height && 2
            * (j - rb.pos.1) + d.pos.1 + 1 < width {
            Some(((2 * (i - rb.pos.0) + d.pos.0) as usize, (2 * (j - rb.pos.1) + d.pos.1) as usize))
        } else {
            None
        }),
{
    if i < rb.pos.0 || j < rb.pos.1 {
        return None;
    }
    let (x, y) = (i - rb.pos.0, j - rb.pos.1);
    let xs = match x.checked_mul(2) {
        Some(v) => match v.checked_add(d.pos.0) {
            Some(v) => v,
            None => {
                return None;
            },
        },
        None => {
            return None;
        },
    };
    let ys = match y.checked_mul(2) {
        Some(v) => match v.checked_add(d.pos.1) {
            Some(v) => v,
            None => {
                return None;
            },
        },
        None => {
            return None;
        },
    };
    if height == 0 || width == 0 || xs >= height - 1 || ys >= width - 1 {
        return None;
    }
    Some((xs, ys))
}

/// Whether pixel `u` of a row-major image of `width` columns lies in the
/// first `rows` rows of block `rb`, or in row `rows` of it before column
/// `cols` of the block.
spec fn painted(rb: RangeBlockLocation, rows: int, cols: int, u: int, width: int) -> bool {
    let (r, c) = (u / width, u % width);
    ||| (rb.pos.0 <= r < rb.pos.0 + rows && rb.pos.1 <= c < rb.pos.1 + rb.size.1)
    ||| (r == rb.pos.0 + rows && rb.pos.1 <= c < rb.pos.1 + cols)
}

/// For each pixel of an image of `height` rows and `width` columns, row by
/// row, the last of `entries` whose range block covers it, with that
/// block's transformation; the empty entry where no block does.
pub fn pixel_table(
    entries: &Vec<(RangeBlockLocation, Transformation)>,
    height: usize,
    width: usize,
) -> (r: Vec<(RangeBlockLocation, Transformation)>)
    requires
        height * width <= usize::MAX,
        forall|k: int|
            0 <= k < entries@.len() ==> block_within(
                #[trigger] entries@[k].0,
                height as nat,
                width as nat,
            ),
    ensures
        r@ == pixel_entries(entries@, height as nat, width as nat),
{
    let n = height * width;
    let ghost w = width as int;
    let dflt = (RangeBlockLocation::default(), (DomainBlockLocation::default(), 0u32, 0u32));
    let mut v: Vec<(RangeBlockLocation, Transformation)> = Vec::new();
    while v.len() < n
        invariant
            v.len() <= n,
            dflt == empty_entry(),
            forall|u: int| 0 <= u < v.len() ==> #[trigger] v@[u] == empty_entry(),
        decreases n - v.len(),
    {
        v.push(dflt);
    }
    let mut k: usize = 0;
    while k < entries.len()
        invariant
            n == height * width,
            w == width,
            n <= usize::MAX,
            k <= entries.len(),
            v.len() == n,
            forall|q: int|
                0 <= q < entries@.len() ==> block_within(
                    #[trigger] entries@[q].0,
                    height as nat,
                    width as nat,
                ),
            forall|u: int|
                0 <= u < n ==> #[trigger] v@[u] == covering_entry(
                    entries@.take(k as int),
                    u / w,
                    u % w,
                ),
        decreases entries.len() - k,
    {
        let e = entries[k];
        let rb = e.0;
        assert(block_within(entries@[k as int].0, height as nat, width as nat));
        let ghost before = v@;
        let mut i: usize = 0;
        while i < rb.size.0
            invariant
                n == height * width,
                w == width,
                n <= usize::MAX,
                v.len() == n,
                block_within(rb, height as nat, width as nat),
                i <= rb.size.0,
                forall|u: int|
                    0 <= u < n ==> #[trigger] v@[u] == (if painted(rb, i as int, 0, u, w) {
                        e
                    } else {
                        before[u]
                    }),
            decreases rb.size.0 - i,
        {
            let mut j: usize = 0;
            while j < rb.size.1
                invariant
                    n == height * width,
                    w == width,
                    n <= usize::MAX,
                    v.len() == n,
                    block_within(rb, height as nat, width as nat),
                    i < rb.size.0,
                    j <= rb.size.1,
                    forall|u: int|
                        0 <= u < n ==> #[trigger] v@[u] == (if painted(
                            rb,
                            i as int,
                            j as int,
                            u,
                            w,
                        ) {
                            e
                        } else {
                            before[u]
                        }),
                decreases rb.size.1 - j,
            {
                let ghost (a, b) = ((i + rb.pos.0) as int, (j + rb.pos.1) as int);
                proof {
                    lemma_mul_inequality(a, height as int - 1, w);
                    lemma_mul_is_distributive_sub_other_way(w, height as int, 1);
                    lemma_flat_index(a, b, w);
                }
                let idx = (i + rb.pos.0) * width + j + rb.pos.1;
                let ghost prev = v@;
                v.set(idx, e);
                proof {
                    assert forall|u: int| 0 <= u < n implies #[trigger] v@[u] == (if painted(
                        rb,
                        i as int,
                        j + 1,
                        u,
                        w,
                    ) {
                        e
                    } else {
                        before[u]
                    }) by {
                        lemma_fundamental_div_mod(u, w);
                        if u != idx {
                            assert(prev[u] == v@[u]);
                            if u / w == a && u % w == b {
                                assert(u == w * a + b);
                                lemma_mul_is_commutative(w, a);
                            }
                        }
                    }
                }
                j = j + 1;
            }
            proof {
                assert forall|u: int| 0 <= u < n implies #[trigger] v@[u] == (if painted(
                    rb,
                    i + 1,
                    0,
                    u,
                    w,
                ) {
                    e
                } else {
                    before[u]
                }) by {
                    assert(painted(rb, i + 1, 0, u, w) == painted(rb, i as int, rb.size.1 as int, u, w));
                }
            }
            i = i + 1;
        }
        proof {
            let t = entries@.take(k as int + 1);
            assert(t.drop_last() =~= entries@.take(k as int));
            assert(t.last() == e);
            assert forall|u: int| 0 <= u < n implies #[trigger] v@[u] == covering_entry(
                t,
                u / w,
                u % w,
            ) by {
                assert(painted(rb, rb.size.0 as int, 0, u, w) == block_contains(rb, u / w, u % w));
            }
        }
        k = k + 1;
    }
    proof {
        assert(entries@.take(entries@.len() as int) =~= entries@);
    }
    assert(v@ =~= pixel_entries(entries@, height as nat, width as nat));
    v
}

/// Cells `(a, b)` of an array of `cols` columns whose flat indices are equal
/// are the same cell.
pub(crate) proof fn lemma_cell_unique(a: int, b: int, c: int, d: int, cols: int)
    requires
        0 <= a,
        0 <= c,
        0 <= b < cols,
        0 <= d < cols,
        a * cols + b == c * cols + d,
    ensures
        a == c,
        b == d,
{
    lemma_flat_index(a, b, cols);
    lemma_flat_index(c, d, cols);
}

/// `img` with the cells of block `rb` replaced by the cells of `block`, cell
/// `(i, j)` of the block going to cell `(rb.pos.0 + i, rb.pos.1 + j)`.
pub fn paste_block<T: Copy>(img: &mut Arr<T>, rb: RangeBlockLocation, block: &Arr<T>)
    requires
        old(img)@.wf(),
        block@.wf(),
        block@.rows == rb.size.0,
        block@.cols == rb.size.1,
        block_within(rb, old(img)@.rows, old(img)@.cols),
    ensures
        final(img)@.wf(),
        final(img)@.rows == old(img)@.rows,
        final(img)@.cols == old(img)@.cols,
        forall|a: int, b: int|
            0 <= a < old(img)@.rows && 0 <= b < old(img)@.cols ==> #[trigger] final(img)@.at(a, b)
                == (if block_contains(rb, a, b) {
                block@.at(a - rb.pos.0, b - rb.pos.1)
            } else {
                old(img)@.at(a, b)
            }),
{
    let ghost start = img@;
    let ghost cols = start.cols as int;
    let (nrows, ncols) = img.dim();
    let mut i: usize = 0;
    while i < rb.size.0
        invariant
            start == old(img)@,
            cols == start.cols,
            nrows == start.rows,
            ncols == start.cols,
            block@.wf(),
            block@.rows == rb.size.0,
            block@.cols == rb.size.1,
            block_within(rb, start.rows, start.cols),
            img@.wf(),
            img@.rows == start.rows,
            img@.cols == start.cols,
            i <= rb.size.0,
            forall|a: int, b: int|
                0 <= a < start.rows && 0 <= b < start.cols ==> #[trigger] img@.at(a, b) == (if rb.pos.0
                    <= a < rb.pos.0 + i && rb.pos.1 <= b < rb.pos.1 + rb.size.1 {
                    block@.at(a - rb.pos.0, b - rb.pos.1)
                } else {
                    start.at(a, b)
                }),
        decreases rb.size.0 - i,
    {
        let mut j: usize = 0;
        while j < rb.size.1
            invariant
                start == old(img)@,
                cols == start.cols,
                nrows == start.rows,
                ncols == start.cols,
                block@.wf(),
                block@.rows == rb.size.0,
                block@.cols == rb.size.1,
                block_within(rb, start.rows, start.cols),
                img@.wf(),
                img@.rows == start.rows,
                img@.cols == start.cols,
                i < rb.size.0,
                j <= rb.size.1,
                forall|a: int, b: int|
                    0 <= a < start.rows && 0 <= b < start.cols ==> #[trigger] img@.at(a, b) == (if (
                    rb.pos.0 <= a < rb.pos.0 + i && rb.pos.1 <= b < rb.pos.1 + rb.size.1) || (a
                        == rb.pos.0 + i && rb.pos.1 <= b < rb.pos.1 + j) {
                        block@.at(a - rb.pos.0, b - rb.pos.1)
                    } else {
                        start.at(a, b)
                    }),
            decreases rb.size.1 - j,
        {
            let v = block.get(i, j);
            let ghost prev = img@;
            let ghost (x, y) = ((rb.pos.0 + i) as int, (rb.pos.1 + j) as int);
            img.set(rb.pos.0 + i, rb.pos.1 + j, v);
            proof {
                assert forall|a: int, b: int|
                    0 <= a < start.rows && 0 <= b < start.cols implies #[trigger] img@.at(a, b) == (
                    if (rb.pos.0 <= a < rb.pos.0 + i && rb.pos.1 <= b < rb.pos.1 + rb.size.1) || (a
                        == rb.pos.0 + i && rb.pos.1 <= b < rb.pos.1 + j + 1) {
                        block@.at(a - rb.pos.0, b - rb.pos.1)
                    } else {
                        start.at(a, b)
                    }) by {
                    lemma_cell_index(a, b, start.rows as int, cols);
                    lemma_cell_index(x, y, start.rows as int, cols);
                    if a * cols + b == x * cols + y {
                        lemma_cell_unique(a, b, x, y, cols);
                    } else {
                        assert(img@.at(a, b) == prev.at(a, b));
                    }
                }
            }
            j = j + 1;
        }
        i = i + 1;
    }
}

} // verus!
