use crate::common::bit_matrix::BitMatrix;
use crate::common::global_histogram_binarizer::MAX_IMAGE_PIXELS;
use crate::common::hybrid_binarizer::{
    black_by_blocks, black_in_block, black_point, block_min, block_origin, block_sum,
    block_threshold, blocks_along, capped, five_in_row, lemma_range_grows, HybridBinarizer,
    MINIMUM_DIMENSION,
};
use crate::error::Error;
use vstd::prelude::*;

verus! {

/// Whether `seen` has the size and the cells of `image`.
pub open spec fn same_cells(seen: BitMatrix, image: BitMatrix) -> bool {
    &&& seen.spec_width() == image.spec_width()
    &&& seen.spec_height() == image.spec_height()
    &&& forall|x: int, y: int| #[trigger] seen.cell(x, y) == image.cell(x, y)
}

/// The grey level of a cell of `image`: 0 for a cell that is set, 255 for any other.
pub open spec fn grey_level(image: BitMatrix, x: int, y: int) -> u8 {
    if image.cell(x, y) {
        0
    } else {
        255
    }
}

/// Whether the grey levels are those of the cells of `image`, row by row.
pub open spec fn grey_levels_of(luminances: Seq<u8>, image: BitMatrix) -> bool {
    &&& image.spec_width() * image.spec_height() <= luminances.len()
    &&& forall|x: int, y: int|
        0 <= x < image.spec_width() && 0 <= y < image.spec_height() ==> luminances[y
            * image.spec_width() + x] == #[trigger] grey_level(image, x, y)
}

/// The grey levels of a block sum to no more than its least and 255 for each of the
/// others.
pub proof fn lemma_sum_and_least(luminances: Seq<u8>, width: int, xo: int, yo: int, n: nat)
    requires
        n >= 1,
    ensures
        block_sum(luminances, width, xo, yo, n) <= 255 * (n - 1) + block_min(
            luminances,
            width,
            xo,
            yo,
            n,
        ),
    decreases n,
{
    lemma_range_grows(luminances, width, xo, yo, (n - 1) as nat, (n - 1) as nat);
    if n > 1 {
        lemma_sum_and_least(luminances, width, xo, yo, (n - 1) as nat);
    }
}

/// A black point lies below the grey level of white.
pub proof fn lemma_black_point_below_white(
    luminances: Seq<u8>,
    width: int,
    height: int,
    bx: int,
    by: int,
)
    ensures
        0 <= black_point(luminances, width, height, bx, by) <= 254,
    decreases (if bx >= 0 && by >= 0 {
        bx + by
    } else {
        0
    }),
{
    let xo = block_origin(bx, width);
    let yo = block_origin(by, height);
    lemma_range_grows(luminances, width, xo, yo, 64, 64);
    lemma_sum_and_least(luminances, width, xo, yo, 64);
    if bx > 0 && by > 0 {
        lemma_black_point_below_white(luminances, width, height, bx, by - 1);
        lemma_black_point_below_white(luminances, width, height, bx - 1, by);
        lemma_black_point_below_white(luminances, width, height, bx - 1, by - 1);
    }
}

/// Five black points in a row sum to no more than five times 254.
pub proof fn lemma_five_below_white(luminances: Seq<u8>, width: int, height: int, left: int, row: int)
    ensures
        0 <= five_in_row(luminances, width, height, left, row) <= 5 * 254,
{
    lemma_black_point_below_white(luminances, width, height, left - 2, row);
    lemma_black_point_below_white(luminances, width, height, left - 1, row);
    lemma_black_point_below_white(luminances, width, height, left, row);
    lemma_black_point_below_white(luminances, width, height, left + 1, row);
    lemma_black_point_below_white(luminances, width, height, left + 2, row);
}

/// The threshold of a block lies below the grey level of white.
pub proof fn lemma_threshold_below_white(
    luminances: Seq<u8>,
    width: int,
    height: int,
    bx: int,
    by: int,
)
    ensures
        0 <= block_threshold(luminances, width, height, bx, by) <= 254,
{
    let left = capped(bx, blocks_along(width) - 3);
    let top = capped(by, blocks_along(height) - 3);
    lemma_five_below_white(luminances, width, height, left, top - 2);
    lemma_five_below_white(luminances, width, height, left, top - 1);
    lemma_five_below_white(luminances, width, height, left, top);
    lemma_five_below_white(luminances, width, height, left, top + 1);
    lemma_five_below_white(luminances, width, height, left, top + 2);
}

/// Black stays black and white stays white: a pixel with the grey level 0 is black by
/// the blocks, and one with the grey level 255 is not.
pub proof fn lemma_black_by_blocks(luminances: Seq<u8>, width: int, height: int, x: int, y: int)
    requires
        width >= 8,
        height >= 8,
        0 <= x < width,
        0 <= y < height,
        luminances[y * width + x] == 0 || luminances[y * width + x] == 255,
    ensures
        black_by_blocks(luminances, width, height, blocks_along(height), 0, x, y) == (
        luminances[y * width + x] == 0),
{
    let rows = blocks_along(height);
    if black_by_blocks(luminances, width, height, rows, 0, x, y) {
        let (bx, by) = choose|bx: int, by: int|
            0 <= bx < blocks_along(width) && 0 <= by && (by < rows || (by == rows && bx < 0))
                && black_in_block(luminances, width, height, bx, by, x, y);
        lemma_threshold_below_white(luminances, width, height, bx, by);
    }
    if luminances[y * width + x] == 0 {
        let bx = x / 8;
        let by = y / 8;
        lemma_threshold_below_white(luminances, width, height, bx, by);
        assert(black_in_block(luminances, width, height, bx, by, x, y));
        assert(0 <= bx < blocks_along(width) && 0 <= by && (by < rows || (by == rows && bx < 0))
            && black_in_block(luminances, width, height, bx, by, x, y));
    }
}

impl<S> HybridBinarizer<S> {
    /// An image in black and white comes back: where the grey levels are those of an
    /// image of at least 40 cells along both sides, turning them into black and white
    /// block by block gives a matrix with the cells of the image.
    pub proof fn lemma_black_and_white_comes_back(
        luminances: Seq<u8>,
        image: BitMatrix,
        width: usize,
        height: usize,
        r: Result<BitMatrix, Error>,
    )
        requires
            image.wf(),
            image.spec_width() == width,
            image.spec_height() == height,
            width >= MINIMUM_DIMENSION,
            height >= MINIMUM_DIMENSION,
            width * height <= MAX_IMAGE_PIXELS,
            grey_levels_of(luminances, image),
            HybridBinarizer::<S>::matrix_made(luminances, width, height, r),
        ensures
            r is Ok,
            same_cells(r->Ok_0, image),
    {
        image.lemma_dimensions();
        let seen = r->Ok_0;
        assert forall|x: int, y: int| #[trigger] seen.cell(x, y) == image.cell(x, y) by {
            if 0 <= x < width && 0 <= y < height {
                assert(luminances[y * image.spec_width() + x] == grey_level(image, x, y));
                lemma_black_by_blocks(luminances, width as int, height as int, x, y);
            } else {
                if seen.cell(x, y) {
                    seen.lemma_cell_in_matrix(x, y);
                }
                if image.cell(x, y) {
                    image.lemma_cell_in_matrix(x, y);
                }
            }
        }
    }
}

} // verus!
