#![allow(non_snake_case)]

use crate::binarizer::Binarizer;
use crate::common::bit_array::BitArray;
use crate::common::bit_matrix::{lemma_word_index, BitMatrix};
use crate::common::global_histogram_binarizer::{
    black_point_of, lemma_pixels, sample_histogram, GlobalHistogramBinarizer, MAX_IMAGE_PIXELS,
};
use crate::error::Error;
use crate::luminance_source::{
    fails_with, gives_height, gives_matrix, gives_width, LuminanceSource,
};
use vstd::prelude::*;

verus! {

/// Turns grey levels into black and white by a threshold for each block of eight by
/// eight pixels, which is taken from the blocks around it. Images of fewer than 40 pixels
/// along a side are left to the one threshold of the histogram.
pub struct HybridBinarizer<S> {
    binary: GlobalHistogramBinarizer<S>,
}

/// The side of a block, in pixels.
pub const BLOCK_SIZE: usize = 8;

/// The smallest side of an image that is turned into black and white block by block.
pub const MINIMUM_DIMENSION: usize = 40;

/// The range of grey levels below which a block counts as flat.
pub const MIN_DYNAMIC_RANGE: u8 = 24;

/// The number of blocks along a side of `side` pixels: the last block may reach beyond
/// the side.
pub open spec fn blocks_along(side: int) -> int {
    (side + 7) / 8
}

/// The first pixel of block `i` along a side of `side` pixels. A block that would reach
/// beyond the side is moved back to end with it.
pub open spec fn block_origin(i: int, side: int) -> int {
    if 8 * i > side - 8 {
        side - 8
    } else {
        8 * i
    }
}

/// The grey level of the `k`-th pixel of the block whose first pixel is `(xo, yo)`, the
/// pixels taken row by row.
pub open spec fn block_pixel(luminances: Seq<u8>, width: int, xo: int, yo: int, k: int) -> u8 {
    luminances[(yo + k / 8) * width + xo + k % 8]
}

/// The sum of the first `n` grey levels of a block.
pub open spec fn block_sum(luminances: Seq<u8>, width: int, xo: int, yo: int, n: nat) -> int
    decreases n,
{
    if n == 0 {
        0
    } else {
        block_sum(luminances, width, xo, yo, (n - 1) as nat) + block_pixel(
            luminances,
            width,
            xo,
            yo,
            n - 1,
        )
    }
}

/// The least of the first `n` grey levels of a block, and 255 for none.
pub open spec fn block_min(luminances: Seq<u8>, width: int, xo: int, yo: int, n: nat) -> int
    decreases n,
{
    if n == 0 {
        255
    } else {
        let rest = block_min(luminances, width, xo, yo, (n - 1) as nat);
        let pixel = block_pixel(luminances, width, xo, yo, n - 1) as int;
        if pixel < rest {
            pixel
        } else {
            rest
        }
    }
}

/// The greatest of the first `n` grey levels of a block, and 0 for none.
pub open spec fn block_max(luminances: Seq<u8>, width: int, xo: int, yo: int, n: nat) -> int
    decreases n,
{
    if n == 0 {
        0
    } else {
        let rest = block_max(luminances, width, xo, yo, (n - 1) as nat);
        let pixel = block_pixel(luminances, width, xo, yo, n - 1) as int;
        if pixel > rest {
            pixel
        } else {
            rest
        }
    }
}

/// The black point of the block at column `bx` of row `by` of the blocks: for a block
/// with more than 24 grey levels between its darkest and its lightest pixel the mean
/// of its grey levels. A flatter block counts as light, and its black point is half of its
/// darkest grey level; where the block has neighbours above and to the left and is
/// darker than the mean of their black points, the one to the left counted twice, that
/// mean is its black point.
pub open spec fn black_point(luminances: Seq<u8>, width: int, height: int, bx: int, by: int) -> int
    decreases (if bx >= 0 && by >= 0 {
        bx + by
    } else {
        0
    }),
{
    let xo = block_origin(bx, width);
    let yo = block_origin(by, height);
    let least = block_min(luminances, width, xo, yo, 64);
    let greatest = block_max(luminances, width, xo, yo, 64);
    if greatest - least > 24 {
        block_sum(luminances, width, xo, yo, 64) / 64
    } else if bx > 0 && by > 0 {
        let around = (black_point(luminances, width, height, bx, by - 1) + 2 * black_point(
            luminances,
            width,
            height,
            bx - 1,
            by,
        ) + black_point(luminances, width, height, bx - 1, by - 1)) / 4;
        if least < around {
            around
        } else {
            least / 2
        }
    } else {
        least / 2
    }
}

/// `value` kept between 2 and `max`.
pub open spec fn capped(value: int, max: int) -> int {
    if value < 2 {
        2
    } else if value < max {
        value
    } else {
        max
    }
}

/// The sum of the black points of five blocks in a row of the blocks, around column
/// `left`.
pub open spec fn five_in_row(luminances: Seq<u8>, width: int, height: int, left: int, row: int) -> int {
    black_point(luminances, width, height, left - 2, row) + black_point(
        luminances,
        width,
        height,
        left - 1,
        row,
    ) + black_point(luminances, width, height, left, row) + black_point(
        luminances,
        width,
        height,
        left + 1,
        row,
    ) + black_point(luminances, width, height, left + 2, row)
}

/// The threshold of the block at column `bx` of row `by` of the blocks: the mean of the
/// black points of the five by five blocks around it, which are moved into the image
/// where the block lies at an edge.
pub open spec fn block_threshold(luminances: Seq<u8>, width: int, height: int, bx: int, by: int) -> int {
    let left = capped(bx, blocks_along(width) - 3);
    let top = capped(by, blocks_along(height) - 3);
    (five_in_row(luminances, width, height, left, top - 2) + five_in_row(
        luminances,
        width,
        height,
        left,
        top - 1,
    ) + five_in_row(luminances, width, height, left, top) + five_in_row(
        luminances,
        width,
        height,
        left,
        top + 1,
    ) + five_in_row(luminances, width, height, left, top + 2)) / 25
}

/// Whether the pixel `(x, y)` lies in the block at column `bx` of row `by` of the blocks
/// and is no lighter than the threshold of that block.
pub open spec fn black_in_block(
    luminances: Seq<u8>,
    width: int,
    height: int,
    bx: int,
    by: int,
    x: int,
    y: int,
) -> bool {
    &&& block_origin(bx, width) <= x < block_origin(bx, width) + 8
    &&& block_origin(by, height) <= y < block_origin(by, height) + 8
    &&& luminances[y * width + x] <= block_threshold(luminances, width, height, bx, by)
}

/// Whether the pixel `(x, y)` is black by one of the blocks before the block at column
/// `columns` of row `rows`.
pub open spec fn black_by_blocks(
    luminances: Seq<u8>,
    width: int,
    height: int,
    rows: int,
    columns: int,
    x: int,
    y: int,
) -> bool {
    exists|bx: int, by: int|
        0 <= bx < blocks_along(width) && 0 <= by && (by < rows || (by == rows && bx < columns))
            && black_in_block(luminances, width, height, bx, by, x, y)
}

/// The least grey level goes down and the greatest goes up as more pixels are looked at.
pub proof fn lemma_range_grows(luminances: Seq<u8>, width: int, xo: int, yo: int, n: nat, m: nat)
    requires
        n <= m,
    ensures
        block_min(luminances, width, xo, yo, m) <= block_min(luminances, width, xo, yo, n),
        block_max(luminances, width, xo, yo, m) >= block_max(luminances, width, xo, yo, n),
        0 <= block_min(luminances, width, xo, yo, n) <= 255,
        0 <= block_max(luminances, width, xo, yo, n) <= 255,
        0 <= block_sum(luminances, width, xo, yo, n) <= 255 * n,
    decreases m,
{
    if n < m {
        lemma_range_grows(luminances, width, xo, yo, n, (m - 1) as nat);
    } else if n > 0 {
        lemma_range_grows(luminances, width, xo, yo, (n - 1) as nat, (n - 1) as nat);
    }
}

/// A black point is a grey level.
pub proof fn lemma_black_point_bound(luminances: Seq<u8>, width: int, height: int, bx: int, by: int)
    ensures
        0 <= black_point(luminances, width, height, bx, by) <= 255,
    decreases (if bx >= 0 && by >= 0 {
        bx + by
    } else {
        0
    }),
{
    let xo = block_origin(bx, width);
    let yo = block_origin(by, height);
    lemma_range_grows(luminances, width, xo, yo, 64, 64);
    if bx > 0 && by > 0 {
        lemma_black_point_bound(luminances, width, height, bx, by - 1);
        lemma_black_point_bound(luminances, width, height, bx - 1, by);
        lemma_black_point_bound(luminances, width, height, bx - 1, by - 1);
    }
}

impl<S> HybridBinarizer<S> {
    /// The source of the grey levels.
    pub closed spec fn spec_source(&self) -> S {
        self.binary.spec_source()
    }

    /// The binarizer of `source`.
    pub fn new(source: S) -> (b: HybridBinarizer<S>)
        ensures
            b.spec_source() == source,
    {
        let binary = GlobalHistogramBinarizer::new(source);
        HybridBinarizer { binary }
    }

    /// Whether the grey levels are those of an image of `width` by `height` pixels that
    /// is turned into black and white block by block.
    pub open spec fn holds_image(luminances: Seq<u8>, width: int, height: int) -> bool {
        &&& MINIMUM_DIMENSION <= width
        &&& MINIMUM_DIMENSION <= height
        &&& width * height <= MAX_IMAGE_PIXELS
        &&& width * height <= luminances.len()
    }

    /// The first pixel of block `i` along a side of `side` pixels.
    fn origin(i: usize, side: usize) -> (o: usize)
        requires
            MINIMUM_DIMENSION <= side <= MAX_IMAGE_PIXELS,
            i < blocks_along(side as int),
        ensures
            o == block_origin(i as int, side as int),
            o + 8 <= side,
    {
        let offset = i * 8;
        if offset > side - 8 {
            side - 8
        } else {
            offset
        }
    }

    /// The black points of the blocks of the image, row by row.
    pub fn calculateBlackPoints(
        luminances: &Vec<u8>,
        subWidth: usize,
        subHeight: usize,
        width: usize,
        height: usize,
    ) -> (blackPoints: Vec<Vec<u32>>)
        requires
            HybridBinarizer::<S>::holds_image(luminances@, width as int, height as int),
            subWidth == blocks_along(width as int),
            subHeight == blocks_along(height as int),
        ensures
            blackPoints@.len() == subHeight,
            forall|by: int| 0 <= by < subHeight ==> (#[trigger] blackPoints@[by])@.len() == subWidth,
            forall|bx: int, by: int|
                0 <= bx < subWidth && 0 <= by < subHeight ==> #[trigger] blackPoints@[by]@[bx]
                    == black_point(luminances@, width as int, height as int, bx, by),
    {
        let mut blackPoints: Vec<Vec<u32>> = Vec::new();
        let mut y: usize = 0;
        while y < subHeight
            invariant
                HybridBinarizer::<S>::holds_image(luminances@, width as int, height as int),
                subWidth == blocks_along(width as int),
                subHeight == blocks_along(height as int),
                y <= subHeight,
                blackPoints@.len() == y,
                forall|by: int| 0 <= by < y ==> (#[trigger] blackPoints@[by])@.len() == subWidth,
                forall|bx: int, by: int|
                    0 <= bx < subWidth && 0 <= by < y ==> #[trigger] blackPoints@[by]@[bx]
                        == black_point(luminances@, width as int, height as int, bx, by),
            decreases subHeight - y,
        {
            proof {
                lemma_pixels(width as int, height as int);
            }
            let yoffset = HybridBinarizer::<S>::origin(y, height);
            let mut row: Vec<u32> = Vec::new();
            let mut x: usize = 0;
            while x < subWidth
                invariant
                    HybridBinarizer::<S>::holds_image(luminances@, width as int, height as int),
                    subWidth == blocks_along(width as int),
                    subHeight == blocks_along(height as int),
                    y < subHeight,
                    yoffset == block_origin(y as int, height as int),
                    yoffset + 8 <= height,
                    x <= subWidth,
                    blackPoints@.len() == y,
                    forall|by: int| 0 <= by < y ==> (#[trigger] blackPoints@[by])@.len() == subWidth,
                    forall|bx: int, by: int|
                        0 <= bx < subWidth && 0 <= by < y ==> #[trigger] blackPoints@[by]@[bx]
                            == black_point(luminances@, width as int, height as int, bx, by),
                    row@.len() == x,
                    forall|bx: int|
                        0 <= bx < x ==> #[trigger] row@[bx] == black_point(
                            luminances@,
                            width as int,
                            height as int,
                            bx,
                            y as int,
                        ),
                decreases subWidth - x,
            {
                proof {
                    lemma_pixels(width as int, height as int);
                }
                let xoffset = HybridBinarizer::<S>::origin(x, width);
                let range = HybridBinarizer::<S>::block_range(luminances, width, height, xoffset, yoffset);
                let sum = range.0;
                let min = range.1;
                let flat = range.2;
                // The mean of the block is the black point for want of a better one.
                let mut average: u32 = sum / 64;
                if flat {
                    // A block with little variation is taken for light: a black point at
                    // its mean would make black and white out of noise. Half of its
                    // darkest grey level is taken instead.
                    average = (min / 2) as u32;
                    if y > 0 && x > 0 {
                        // A block that is darker than the black points around it lies
                        // within something dark, and takes their mean.
                        let above = blackPoints[y - 1][x];
                        let beside = row[x - 1];
                        let across = blackPoints[y - 1][x - 1];
                        proof {
                            lemma_black_point_bound(
                                luminances@,
                                width as int,
                                height as int,
                                x as int,
                                y - 1,
                            );
                            lemma_black_point_bound(
                                luminances@,
                                width as int,
                                height as int,
                                x - 1,
                                y as int,
                            );
                            lemma_black_point_bound(
                                luminances@,
                                width as int,
                                height as int,
                                x - 1,
                                y - 1,
                            );
                        }
                        let averageNeighborBlackPoint: u32 = (above + (2 * beside) + across) / 4;
                        if (min as u32) < averageNeighborBlackPoint {
                            average = averageNeighborBlackPoint;
                        }
                    }
                }
                row.push(average);
                x += 1;
            }
            blackPoints.push(row);
            y += 1;
        }
        blackPoints
    }

    /// The sum of the grey levels of the block whose first pixel is `(xoffset, yoffset)`,
    /// its darkest grey level, and whether it is flat. Once the block is seen not to be
    /// flat, the darkest grey level is no longer looked for, and what is given for it
    /// is the darkest up to there.
    pub fn block_range(luminances: &Vec<u8>, width: usize, height: usize, xoffset: usize, yoffset: usize) -> (r:
        (u32, u8, bool))
        requires
            HybridBinarizer::<S>::holds_image(luminances@, width as int, height as int),
            xoffset + 8 <= width,
            yoffset + 8 <= height,
        ensures
            r.0 == block_sum(luminances@, width as int, xoffset as int, yoffset as int, 64),
            r.2 == (block_max(luminances@, width as int, xoffset as int, yoffset as int, 64)
                - block_min(luminances@, width as int, xoffset as int, yoffset as int, 64) <= 24),
            r.2 ==> r.1 == block_min(luminances@, width as int, xoffset as int, yoffset as int, 64),
    {
        let ghost xo = xoffset as int;
        let ghost yo = yoffset as int;
        let ghost w = width as int;
        let mut sum: u32 = 0;
        let mut min: u8 = 0xFF;
        let mut max: u8 = 0;
        let mut exceeded = false;
        let mut yy: usize = 0;
        while yy < 8
            invariant
                HybridBinarizer::<S>::holds_image(luminances@, width as int, height as int),
                xoffset + 8 <= width,
                yoffset + 8 <= height,
                xo == xoffset,
                yo == yoffset,
                w == width,
                yy <= 8,
                sum == block_sum(luminances@, w, xo, yo, (8 * yy) as nat),
                sum <= 2040 * yy,
                !exceeded ==> min == block_min(luminances@, w, xo, yo, (8 * yy) as nat) && max
                    == block_max(luminances@, w, xo, yo, (8 * yy) as nat) && max - min <= 24,
                exceeded ==> block_max(luminances@, w, xo, yo, 64) - block_min(
                    luminances@,
                    w,
                    xo,
                    yo,
                    64,
                ) > 24,
            decreases 8 - yy,
        {
            proof {
                lemma_word_index((yoffset + yy) as int, xoffset as int, w, height as int);
                assert((yoffset + yy) * width + width <= width * height) by (nonlinear_arith)
                    requires
                        yoffset + yy + 1 <= height,
                        width >= 0,
                ;
            }
            let offset: usize = (yoffset + yy) * width + xoffset;
            let mut xx: usize = 0;
            while xx < 8
                invariant
                    xoffset + 8 <= width,
                    xo == xoffset,
                    yo == yoffset,
                    w == width,
                    yy < 8,
                    xx <= 8,
                    offset == (yoffset + yy) * width + xoffset,
                    offset + 8 <= luminances@.len(),
                    offset + 8 <= 0x4000_0000,
                    sum == block_sum(luminances@, w, xo, yo, (8 * yy + xx) as nat),
                    sum <= 2040 * yy + 255 * xx,
                    !exceeded ==> min == block_min(luminances@, w, xo, yo, (8 * yy + xx) as nat)
                        && max == block_max(luminances@, w, xo, yo, (8 * yy + xx) as nat),
                decreases 8 - xx,
            {
                let pixel = luminances[offset + xx];
                proof {
                    let k = 8 * yy + xx;
                    assert(k / 8 == yy && k % 8 == xx);
                    assert(block_pixel(luminances@, w, xo, yo, k as int) == pixel);
                }
                sum += pixel as u32;
                // The darkest and the lightest are looked for until the block is seen
                // not to be flat.
                if !exceeded {
                    if pixel < min {
                        min = pixel;
                    }
                    if pixel > max {
                        max = pixel;
                    }
                }
                xx += 1;
            }
            yy += 1;
            if !exceeded && max - min > MIN_DYNAMIC_RANGE {
                proof {
                    lemma_range_grows(luminances@, w, xo, yo, (8 * yy) as nat, 64);
                }
                exceeded = true;
            }
        }
        (sum, min, !exceeded)
    }

    /// Sets the pixels of the image that are no lighter than the threshold of a block in
    /// which they lie.
    pub fn calculateThresholdForBlock(
        luminances: &Vec<u8>,
        subWidth: usize,
        subHeight: usize,
        width: usize,
        height: usize,
        blackPoints: &Vec<Vec<u32>>,
        matrix: &mut BitMatrix,
    )
        requires
            HybridBinarizer::<S>::holds_image(luminances@, width as int, height as int),
            subWidth == blocks_along(width as int),
            subHeight == blocks_along(height as int),
            blackPoints@.len() == subHeight,
            forall|by: int| 0 <= by < subHeight ==> (#[trigger] blackPoints@[by])@.len() == subWidth,
            forall|bx: int, by: int|
                0 <= bx < subWidth && 0 <= by < subHeight ==> #[trigger] blackPoints@[by]@[bx]
                    == black_point(luminances@, width as int, height as int, bx, by),
            old(matrix).wf(),
            old(matrix).spec_width() == width,
            old(matrix).spec_height() == height,
        ensures
            final(matrix).wf(),
            final(matrix).spec_width() == width,
            final(matrix).spec_height() == height,
            forall|x: int, y: int|
                0 <= x < width && 0 <= y < height ==> #[trigger] final(matrix).cell(x, y) == (old(matrix).cell(x, y) || black_by_blocks(
                    luminances@,
                    width as int,
                    height as int,
                    subHeight as int,
                    0,
                    x,
                    y,
                )),
    {
        let ghost start = *matrix;
        let ghost lum = luminances@;
        let ghost w = width as int;
        let ghost h = height as int;
        let mut y: usize = 0;
        while y < subHeight
            invariant
                HybridBinarizer::<S>::holds_image(luminances@, width as int, height as int),
                lum == luminances@,
                w == width,
                h == height,
                subWidth == blocks_along(w),
                subHeight == blocks_along(h),
                blackPoints@.len() == subHeight,
                forall|by: int| 0 <= by < subHeight ==> (#[trigger] blackPoints@[by])@.len() == subWidth,
                forall|bx: int, by: int|
                    0 <= bx < subWidth && 0 <= by < subHeight ==> #[trigger] blackPoints@[by]@[bx]
                        == black_point(lum, w, h, bx, by),
                matrix.wf(),
                matrix.spec_width() == width,
                matrix.spec_height() == height,
                y <= subHeight,
                forall|px: int, py: int|
                    0 <= px < width && 0 <= py < height ==> #[trigger] matrix.cell(px, py) == (
                    start.cell(px, py) || black_by_blocks(lum, w, h, y as int, 0, px, py)),
            decreases subHeight - y,
        {
            proof {
                lemma_pixels(width as int, height as int);
            }
            let yoffset = HybridBinarizer::<S>::origin(y, height);
            let top = HybridBinarizer::<S>::cap(y, subHeight - 3);
            let mut x: usize = 0;
            while x < subWidth
                invariant
                    HybridBinarizer::<S>::holds_image(luminances@, width as int, height as int),
                    lum == luminances@,
                    w == width,
                    h == height,
                    subWidth == blocks_along(w),
                    subHeight == blocks_along(h),
                    subWidth >= 5,
                    subHeight >= 5,
                    blackPoints@.len() == subHeight,
                    forall|by: int|
                        0 <= by < subHeight ==> (#[trigger] blackPoints@[by])@.len() == subWidth,
                    forall|bx: int, by: int|
                        0 <= bx < subWidth && 0 <= by < subHeight ==> #[trigger] blackPoints@[by]@[bx]
                            == black_point(lum, w, h, bx, by),
                    matrix.wf(),
                    matrix.spec_width() == width,
                    matrix.spec_height() == height,
                    y < subHeight,
                    yoffset == block_origin(y as int, h),
                    yoffset + 8 <= height,
                    top == capped(y as int, subHeight - 3),
                    x <= subWidth,
                    forall|px: int, py: int|
                        0 <= px < width && 0 <= py < height ==> #[trigger] matrix.cell(px, py) == (
                        start.cell(px, py) || black_by_blocks(lum, w, h, y as int, x as int, px, py)),
                decreases subWidth - x,
            {
                proof {
                    lemma_pixels(width as int, height as int);
                }
                let xoffset = HybridBinarizer::<S>::origin(x, width);
                let left = HybridBinarizer::<S>::cap(x, subWidth - 3);
                let mut sum: u32 = 0;
                let mut z: usize = 0;
                while z < 5
                    invariant
                        z <= 5,
                        lum == luminances@,
                        w == width,
                        h == height,
                        subWidth == blocks_along(w),
                        subHeight == blocks_along(h),
                        2 <= left <= subWidth - 3,
                        2 <= top <= subHeight - 3,
                        blackPoints@.len() == subHeight,
                        forall|by: int|
                            0 <= by < subHeight ==> (#[trigger] blackPoints@[by])@.len()
                                == subWidth,
                        forall|bx: int, by: int|
                            0 <= bx < subWidth && 0 <= by < subHeight ==> #[trigger] blackPoints@[by]@[bx]
                                == black_point(lum, w, h, bx, by),
                        sum <= z * 5 * 255,
                        sum == HybridBinarizer::<S>::rows_sum(lum, w, h, left as int, top as int, z as int),
                    decreases 5 - z,
                {
                    let blackRow = &blackPoints[top + z - 2];
                    proof {
                        lemma_black_point_bound(lum, w, h, left - 2, top + z - 2);
                        lemma_black_point_bound(lum, w, h, left - 1, top + z - 2);
                        lemma_black_point_bound(lum, w, h, left as int, top + z - 2);
                        lemma_black_point_bound(lum, w, h, left + 1, top + z - 2);
                        lemma_black_point_bound(lum, w, h, left + 2, top + z - 2);
                        assert(blackRow@[left - 2] == blackPoints@[top + z - 2]@[left - 2]);
                        assert(blackRow@[left - 1] == blackPoints@[top + z - 2]@[left - 1]);
                        assert(blackRow@[left as int] == blackPoints@[top + z - 2]@[left as int]);
                        assert(blackRow@[left + 1] == blackPoints@[top + z - 2]@[left + 1]);
                        assert(blackRow@[left + 2] == blackPoints@[top + z - 2]@[left + 2]);
                    }
                    sum += blackRow[left - 2] + blackRow[left - 1] + blackRow[left] + blackRow[left
                        + 1] + blackRow[left + 2];
                    z += 1;
                }
                let average: u32 = sum / 25;
                let ghost before = *matrix;
                proof {
                    assert((yoffset + 7) * width + width <= width * height) by (nonlinear_arith)
                        requires
                            yoffset + 8 <= height,
                            width >= 0,
                    ;
                }
                HybridBinarizer::<S>::thresholdBlock(
                    luminances,
                    xoffset,
                    yoffset,
                    average,
                    width,
                    matrix,
                );
                proof {
                    assert(average == block_threshold(lum, w, h, x as int, y as int));
                    assert forall|px: int, py: int|
                        0 <= px < width && 0 <= py < height implies #[trigger] matrix.cell(px, py)
                        == (start.cell(px, py) || black_by_blocks(lum, w, h, y as int, x + 1, px, py)) by {
                        let here = black_in_block(lum, w, h, x as int, y as int, px, py);
                        let was = black_by_blocks(lum, w, h, y as int, x as int, px, py);
                        let now = black_by_blocks(lum, w, h, y as int, x + 1, px, py);
                        assert(matrix.cell(px, py) == (before.cell(px, py) || here));
                        if was {
                            let (bx, by) = choose|bx: int, by: int|
                                0 <= bx < blocks_along(w) && 0 <= by && (by < y || (by == y && bx
                                    < x)) && black_in_block(lum, w, h, bx, by, px, py);
                            assert(0 <= bx < blocks_along(w) && 0 <= by && (by < y || (by == y
                                && bx < x + 1)) && black_in_block(lum, w, h, bx, by, px, py));
                        }
                        if here {
                            assert(0 <= x < blocks_along(w) && 0 <= y && (y < y || (y == y && x < x
                                + 1)) && black_in_block(lum, w, h, x as int, y as int, px, py));
                        }
                        if now {
                            let (bx, by) = choose|bx: int, by: int|
                                0 <= bx < blocks_along(w) && 0 <= by && (by < y || (by == y && bx
                                    < x + 1)) && black_in_block(lum, w, h, bx, by, px, py);
                            if by == y && bx == x {
                                assert(here);
                            } else {
                                assert(0 <= bx < blocks_along(w) && 0 <= by && (by < y || (by == y
                                    && bx < x)) && black_in_block(lum, w, h, bx, by, px, py));
                            }
                        }
                    }
                }
                x += 1;
            }
            proof {
                assert forall|px: int, py: int|
                    0 <= px < width && 0 <= py < height implies #[trigger] matrix.cell(px, py) == (
                start.cell(px, py) || black_by_blocks(lum, w, h, y + 1, 0, px, py)) by {
                    let was = black_by_blocks(lum, w, h, y as int, subWidth as int, px, py);
                    let now = black_by_blocks(lum, w, h, y + 1, 0, px, py);
                    if was {
                        let (bx, by) = choose|bx: int, by: int|
                            0 <= bx < blocks_along(w) && 0 <= by && (by < y || (by == y && bx
                                < subWidth)) && black_in_block(lum, w, h, bx, by, px, py);
                        assert(0 <= bx < blocks_along(w) && 0 <= by && (by < y + 1 || (by == y + 1
                            && bx < 0)) && black_in_block(lum, w, h, bx, by, px, py));
                    }
                    if now {
                        let (bx, by) = choose|bx: int, by: int|
                            0 <= bx < blocks_along(w) && 0 <= by && (by < y + 1 || (by == y + 1
                                && bx < 0)) && black_in_block(lum, w, h, bx, by, px, py);
                        assert(0 <= bx < blocks_along(w) && 0 <= by && (by < y || (by == y && bx
                            < subWidth)) && black_in_block(lum, w, h, bx, by, px, py));
                    }
                }
            }
            y += 1;
        }
    }

    /// The sum of the black points of the first `z` of the five rows of five blocks
    /// around the block at column `left` of row `top`.
    pub open spec fn rows_sum(luminances: Seq<u8>, width: int, height: int, left: int, top: int, z: int) -> int {
        (if z > 0 {
            five_in_row(luminances, width, height, left, top - 2)
        } else {
            0
        }) + (if z > 1 {
            five_in_row(luminances, width, height, left, top - 1)
        } else {
            0
        }) + (if z > 2 {
            five_in_row(luminances, width, height, left, top)
        } else {
            0
        }) + (if z > 3 {
            five_in_row(luminances, width, height, left, top + 1)
        } else {
            0
        }) + (if z > 4 {
            five_in_row(luminances, width, height, left, top + 2)
        } else {
            0
        })
    }

    /// `value` kept between 2 and `max`.
    pub fn cap(value: usize, max: usize) -> (r: usize)
        ensures
            r == capped(value as int, max as int),
    {
        if value < 2 {
            2
        } else if value < max {
            value
        } else {
            max
        }
    }

    /// Sets the pixels of the block whose first pixel is `(xoffset, yoffset)` that are
    /// no lighter than the threshold: a pixel as light as the threshold is black, so that
    /// a black pixel is black under the threshold 0 too.
    pub fn thresholdBlock(
        luminances: &Vec<u8>,
        xoffset: usize,
        yoffset: usize,
        threshold: u32,
        stride: usize,
        matrix: &mut BitMatrix,
    )
        requires
            old(matrix).wf(),
            xoffset + 8 <= old(matrix).spec_width() <= stride,
            yoffset + 8 <= old(matrix).spec_height(),
            (yoffset + 7) * stride + xoffset + 8 <= luminances@.len(),
        ensures
            final(matrix).wf(),
            final(matrix).spec_width() == old(matrix).spec_width(),
            final(matrix).spec_height() == old(matrix).spec_height(),
            forall|px: int, py: int|
                0 <= px < old(matrix).spec_width() && 0 <= py < old(matrix).spec_height() ==> #[trigger] final(matrix).cell(px, py) == (old(matrix).cell(px, py) || (xoffset <= px < xoffset + 8
                    && yoffset <= py < yoffset + 8 && luminances@[py * stride + px] <= threshold)),
    {
        let ghost start = *matrix;
        let ghost width = matrix.spec_width();
        let ghost height = matrix.spec_height();
        let length = luminances.len();
        proof {
            assert(yoffset + 7 <= (yoffset + 7) * stride) by (nonlinear_arith)
                requires
                    stride >= 1,
                    yoffset >= 0,
            ;
        }
        let mut y: usize = 0;
        while y < 8
            invariant
                y <= 8,
                length == luminances@.len(),
                yoffset + 15 <= length,
                matrix.wf(),
                matrix.spec_width() == width,
                matrix.spec_height() == height,
                width == start.spec_width(),
                height == start.spec_height(),
                xoffset + 8 <= width <= stride,
                yoffset + 8 <= height,
                (yoffset + 7) * stride + xoffset + 8 <= luminances@.len(),
                forall|px: int, py: int|
                    0 <= px < width && 0 <= py < height ==> #[trigger] matrix.cell(px, py) == (
                    start.cell(px, py) || (xoffset <= px < xoffset + 8 && yoffset <= py < yoffset
                        + y && luminances@[py * stride + px] <= threshold)),
            decreases 8 - y,
        {
            proof {
                assert((yoffset + y) * stride <= (yoffset + 7) * stride) by (nonlinear_arith)
                    requires
                        y <= 7,
                        stride >= 0,
                ;
                assert((yoffset + y) * stride >= 0) by (nonlinear_arith)
                    requires
                        yoffset + y >= 0,
                        stride >= 0,
                ;
            }
            let offset: usize = (yoffset + y) * stride + xoffset;
            let mut x: usize = 0;
            while x < 8
                invariant
                    y < 8,
                    x <= 8,
                    length == luminances@.len(),
                    yoffset + 15 <= length,
                    matrix.wf(),
                    matrix.spec_width() == width,
                    matrix.spec_height() == height,
                    xoffset + 8 <= width <= stride,
                    yoffset + 8 <= height,
                    offset == (yoffset + y) * stride + xoffset,
                    offset + 8 <= luminances@.len(),
                    forall|px: int, py: int|
                        0 <= px < width && 0 <= py < height ==> #[trigger] matrix.cell(px, py) == (
                        start.cell(px, py) || (xoffset <= px < xoffset + 8 && ((yoffset <= py
                            < yoffset + y) || (py == yoffset + y && px < xoffset + x))
                            && luminances@[py * stride + px] <= threshold)),
                decreases 8 - x,
            {
                if (luminances[offset + x] as u32) <= threshold {
                    matrix.set(xoffset + x, yoffset + y);
                }
                x += 1;
            }
            y += 1;
        }
    }

    /// Whether `r` is what turning an image of `width` by `height` grey levels into black
    /// and white gives: an image of at least 40 pixels along both sides is turned block by
    /// block, a smaller one by the one threshold of its histogram.
    pub open spec fn matrix_made(
        luminances: Seq<u8>,
        width: usize,
        height: usize,
        r: Result<BitMatrix, Error>,
    ) -> bool {
        &&& ((width >= MINIMUM_DIMENSION && height >= MINIMUM_DIMENSION) ==> {
            &&& r is Ok <==> (HybridBinarizer::<S>::holds_image(
                luminances,
                width as int,
                height as int,
            ) && BitMatrix::fits(width as int, height as int))
            &&& r matches Err(e) ==> e is IllegalArgumentException
            &&& r matches Ok(m) ==> m.wf() && m.spec_width() == width && m.spec_height()
                == height && forall|x: int, y: int|
                0 <= x < width && 0 <= y < height ==> #[trigger] m.cell(x, y)
                    == black_by_blocks(
                    luminances,
                    width as int,
                    height as int,
                    blocks_along(height as int),
                    0,
                    x,
                    y,
                )
        })
        &&& ((width < MINIMUM_DIMENSION || height < MINIMUM_DIMENSION) ==> {
            &&& !GlobalHistogramBinarizer::<S>::holds_image(
                luminances,
                width as int,
                height as int,
            ) ==> (r matches Err(e) && e is IllegalArgumentException)
            &&& GlobalHistogramBinarizer::<S>::holds_image(
                luminances,
                width as int,
                height as int,
            ) ==> match black_point_of(
                sample_histogram(luminances, width as int, height as int),
            ) {
                None => r matches Err(e) && e is NotFoundException,
                Some(point) => r matches Ok(m) && m.wf() && m.spec_width() == width
                    && m.spec_height() == height && forall|x: int, y: int|
                    0 <= x < width && 0 <= y < height ==> #[trigger] m.cell(x, y) == ((
                    luminances[y * width + x] as int) < point),
            }
        })
    }

    /// The image of `width` by `height` grey levels in black and white. An image of at
    /// least 40 pixels along both sides is turned block by block: a pixel is black where
    /// it is no lighter than the threshold of a block in which it lies. A smaller image is
    /// turned by the one threshold of its histogram.
    pub fn black_matrix(luminances: &Vec<u8>, width: usize, height: usize) -> (r: Result<
        BitMatrix,
        Error,
    >)
        ensures
            HybridBinarizer::<S>::matrix_made(luminances@, width, height, r),
    {
        if width >= MINIMUM_DIMENSION && height >= MINIMUM_DIMENSION {
            proof {
                lemma_pixels(width as int, height as int);
            }
            if width > MAX_IMAGE_PIXELS || height > MAX_IMAGE_PIXELS / width {
                return Err(Error::IllegalArgumentException("The image cannot be held".to_owned()));
            }
            if width * height > luminances.len() {
                return Err(Error::IllegalArgumentException("The image cannot be held".to_owned()));
            }
            let mut subWidth = width / 8;
            if width % 8 != 0 {
                subWidth += 1;
            }
            let mut subHeight = height / 8;
            if height % 8 != 0 {
                subHeight += 1;
            }
            let mut newMatrix = match BitMatrix::new2(width, height) {
                Ok(matrix) => matrix,
                Err(e) => {
                    return Err(e);
                },
            };
            let blackPoints = HybridBinarizer::<S>::calculateBlackPoints(
                luminances,
                subWidth,
                subHeight,
                width,
                height,
            );
            HybridBinarizer::<S>::calculateThresholdForBlock(
                luminances,
                subWidth,
                subHeight,
                width,
                height,
                &blackPoints,
                &mut newMatrix,
            );
            Ok(newMatrix)
        } else {
            // A smaller image is left to the histogram.
            GlobalHistogramBinarizer::<S>::black_matrix(luminances, width, height)
        }
    }
}

impl<S: LuminanceSource> HybridBinarizer<S> {
    /// Whether `r` is the image of `source` in black and white: what is made of a width,
    /// a height and grey levels that the source gives. Where the source fails, its error
    /// is handed on.
    pub open spec fn matrix_of_source(source: S, r: Result<BitMatrix, Error>) -> bool {
        exists|width: usize, height: usize, given: Result<Vec<u8>, Error>|
            #![trigger gives_width(source, width), gives_height(source, height), gives_matrix(source, given)]
            gives_width(source, width) && gives_height(source, height) && gives_matrix(
                source,
                given,
            ) && match given {
                Ok(levels) => HybridBinarizer::<S>::matrix_made(levels@, width, height, r),
                Err(e) => fails_with(r, e),
            }
    }
}

impl<S: LuminanceSource> Binarizer<S> for HybridBinarizer<S> {
    fn get_black_row(&self, y: usize, row: &BitArray) -> (r: Result<BitArray, Error>)
        ensures
            GlobalHistogramBinarizer::<S>::row_of_source(self.spec_source(), y, r),
    {
        self.binary.get_black_row(y, row)
    }

    open spec fn makes_matrix(&self, r: Result<BitMatrix, Error>) -> bool {
        HybridBinarizer::<S>::matrix_of_source(self.spec_source(), r)
    }

    fn get_black_matrix(&mut self) -> (r: Result<BitMatrix, Error>)
        ensures
            final(self).spec_source() == old(self).spec_source(),
    {
        let width = self.binary.get_width();
        let height = self.binary.get_height();
        let source = match self.binary.get_luminance_source() {
            Ok(source) => source,
            Err(e) => {
                return Err(e);
            },
        };
        let given = source.get_matrix();
        let r = match given {
            Ok(luminances) => HybridBinarizer::<S>::black_matrix(&luminances, width, height),
            Err(e) => Err(e),
        };
        proof {
            assert(gives_width(*source, width) && gives_height(*source, height) && gives_matrix(
                *source,
                given,
            ));
        }
        r
    }

    fn get_width(&self) -> (w: usize)
        ensures
            gives_width(self.spec_source(), w),
    {
        self.binary.get_width()
    }

    fn get_height(&self) -> (h: usize)
        ensures
            gives_height(self.spec_source(), h),
    {
        self.binary.get_height()
    }

    fn get_luminance_source(&self) -> (r: Result<&S, Error>)
        ensures
            r matches Ok(source) && *source == self.spec_source(),
    {
        self.binary.get_luminance_source()
    }

    fn create_binarizer(&self, source: S) -> (b: Self)
        ensures
            b.spec_source() == source,
    {
        HybridBinarizer::new(source)
    }
}

} // verus!
