//! Which seams between range blocks are softened after decompression.
//!
//! A seam is softened over four pixels across it: the last two of the block
//! and the first two past it. Blocks that touch the last row or column of the
//! image, and blocks of at most five pixels on a side, are left alone.
use crate::prelude::{block_within, RangeBlockLocation};
use crate::quadtree::compression::block_ends_fit;
use vstd::prelude::*;

verus! {

/// The block ends on the last row or column of an image of `height` rows and
/// `width` columns, or is too small to have its seams softened.
pub open spec fn seam_skipped(rb: RangeBlockLocation, height: int, width: int) -> bool {
    ||| rb.pos.1 + rb.size.1 == width
    ||| rb.pos.0 + rb.size.0 == height
    ||| rb.size.0 <= 5
    ||| rb.size.1 <= 5
}

/// A block is left alone exactly when it ends on the last row or the last
/// column of the image or has a side of at most five pixels: any other
/// block has its seams softened, whatever its size.
pub proof fn law_seam_skipped_exactly(rb: RangeBlockLocation, height: int, width: int)
    ensures
        !seam_skipped(rb, height, width) <==> (rb.pos.1 + rb.size.1 != width && rb.pos.0
            + rb.size.0 != height && rb.size.0 > 5 && rb.size.1 > 5),
{
}

/// The four columns across the seam of the block along the second axis:
/// the two last columns of the block, the column just past it and the next
/// one; `None` when the block is skipped. For each row of the block these
/// four pixels are softened. When the block lies within the image, the
/// first two lie in the block and the third in the image.
pub fn bottom_seam(rb: RangeBlockLocation, height: usize, width: usize) -> (r: Option<
    (usize, usize, usize, usize),
>)
    requires
        block_ends_fit(rb),
        rb.pos.1 + rb.size.1 < usize::MAX,
    ensures
        r == (if seam_skipped(rb, height as int, width as int) {
            None
        } else {
            let j = rb.pos.1 + rb.size.1;
            Some(((j - 2) as usize, (j - 1) as usize, j as usize, (j + 1) as usize))
        }),
        r is None <==> (rb.pos.1 + rb.size.1 == width || rb.pos.0 + rb.size.0 == height
            || rb.size.0 <= 5 || rb.size.1 <= 5),
        r matches Some(c) ==> rb.pos.1 <= c.0 && c.1 < rb.pos.1 + rb.size.1 && (block_within(
            rb,
            height as nat,
            width as nat,
        ) ==> c.2 < width),
{
    let (x, y) = (rb.pos.0, rb.pos.1);
    let (sx, sy) = rb.size;
    if y + sy == width || x + sx == height || sx <= 5 || sy <= 5 {
        return None;
    }
    if y + sy < 2 && y + sy + 1 >= width {
        return None;
    }
    let j = y + sy;
    Some((j - 2, j - 1, j, j + 1))
}

/// The four rows across the seam of the block along the first axis: the two
/// last rows of the block, the row just past it and the next one; `None`
/// when the block is skipped. For each column of the block these four pixels
/// are softened. When the block lies within the image, the first two lie in
/// the block and the third in the image.
pub fn side_seam(rb: RangeBlockLocation, height: usize, width: usize) -> (r: Option<
    (usize, usize, usize, usize),
>)
    requires
        block_ends_fit(rb),
        rb.pos.0 + rb.size.0 < usize::MAX,
    ensures
        r == (if seam_skipped(rb, height as int, width as int) {
            None
        } else {
            let i = rb.pos.0 + rb.size.0;
            Some(((i - 2) as usize, (i - 1) as usize, i as usize, (i + 1) as usize))
        }),
        r is None <==> (rb.pos.1 + rb.size.1 == width || rb.pos.0 + rb.size.0 == height
            || rb.size.0 <= 5 || rb.size.1 <= 5),
        r matches Some(c) ==> rb.pos.0 <= c.0 && c.1 < rb.pos.0 + rb.size.0 && (block_within(
            rb,
            height as nat,
            width as nat,
        ) ==> c.2 < height),
{
    let (x, y) = (rb.pos.0, rb.pos.1);
    let (sx, sy) = rb.size;
    if y + sy == width || x + sx == height || sx <= 5 || sy <= 5 {
        return None;
    }
    if x + sx < 2 && x + sx + 1 >= width {
        return None;
    }
    let i = x + sx;
    Some((i - 2, i - 1, i, i + 1))
}

} // verus!
