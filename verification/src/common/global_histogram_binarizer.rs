#![allow(non_snake_case)]

use crate::binarizer::Binarizer;
use crate::common::bit_array::BitArray;
use crate::common::bit_matrix::BitMatrix;
use crate::error::Error;
use crate::luminance_source::{
    fails_with, gives_height, gives_matrix, gives_row, gives_width, LuminanceSource,
};
use crate::qrcode::encoder::mask_util::count_below;
use vstd::prelude::*;

verus! {

/// Turns grey levels into black and white by one threshold for the whole image, which it
/// takes from the histogram of a sample of the grey levels.
pub struct GlobalHistogramBinarizer<S> {
    source: S,
}

/// The number of buckets of the histogram.
pub const LUMINANCE_BUCKETS: usize = 32;

/// The number of grey levels that fall into one bucket.
pub const LUMINANCE_PER_BUCKET: usize = 8;

/// The greatest number of pixels of an image that is turned into black and white: with
/// no more pixels, every count and every place of a pixel fits a word of 32 bits.
pub const MAX_IMAGE_PIXELS: usize = 0x2000_0000;

/// The first of the numbers below `n` at which `f` is greatest.
pub open spec fn first_greatest_below(f: spec_fn(int) -> int, n: nat) -> int
    decreases n,
{
    if n <= 1 {
        0
    } else {
        let best = first_greatest_below(f, (n - 1) as nat);
        if f(n - 1) > f(best) {
            n - 1
        } else {
            best
        }
    }
}

/// The last of the numbers from `x` up to but without `hi` at which `f` is greatest.
pub open spec fn last_greatest_from(f: spec_fn(int) -> int, x: int, hi: int) -> int
    decreases hi - x,
{
    if x >= hi - 1 {
        hi - 1
    } else {
        let best = last_greatest_from(f, x + 1, hi);
        if f(x) > f(best) {
            x
        } else {
            best
        }
    }
}

/// The counts of the buckets.
pub open spec fn counts_of(buckets: Seq<u32>) -> spec_fn(int) -> int {
    |x: int| buckets[x] as int
}

/// The weight of bucket `x` as a second peak beside the peak at `peak`: its count times
/// the square of its distance.
pub open spec fn peak_scores(buckets: Seq<u32>, peak: int) -> spec_fn(int) -> int {
    |x: int| buckets[x] * (x - peak) * (x - peak)
}

/// The weight of bucket `x` as the valley between the peaks at `first` and `second`: a
/// valley is the better the lower it is and the nearer to the second peak.
pub open spec fn valley_scores(buckets: Seq<u32>, first: int, second: int, greatest: int) -> spec_fn(
    int,
) -> int {
    |x: int| (x - first) * (x - first) * (second - x) * (greatest - buckets[x])
}

/// The threshold between black and white for a histogram, or `None` where the image
/// has too little contrast: the tallest peak is found and the second peak, which is
/// tall and far from the first; where they are more than a sixteenth of the buckets
/// apart, the valley between them gives the threshold.
pub open spec fn black_point_of(buckets: Seq<u32>) -> Option<int> {
    let n = buckets.len();
    let tallest = first_greatest_below(counts_of(buckets), n);
    let other = first_greatest_below(peak_scores(buckets, tallest), n);
    let first = if tallest > other {
        other
    } else {
        tallest
    };
    let second = if tallest > other {
        tallest
    } else {
        other
    };
    if second - first <= n / 16 {
        None
    } else {
        Some(
            last_greatest_from(
                valley_scores(buckets, first, second, buckets[tallest] as int),
                first + 1,
                second,
            ) * 8,
        )
    }
}

/// The first greatest is one of the numbers, and no number has more.
pub proof fn lemma_first_greatest(f: spec_fn(int) -> int, n: nat)
    requires
        n >= 1,
    ensures
        0 <= first_greatest_below(f, n) < n,
        forall|k: int| 0 <= k < n ==> #[trigger] f(k) <= f(first_greatest_below(f, n)),
    decreases n,
{
    if n > 1 {
        lemma_first_greatest(f, (n - 1) as nat);
    }
}

/// The last greatest lies in its range.
pub proof fn lemma_last_greatest(f: spec_fn(int) -> int, x: int, hi: int)
    requires
        x < hi,
    ensures
        x <= last_greatest_from(f, x, hi) < hi,
    decreases hi - x,
{
    if x < hi - 1 {
        lemma_last_greatest(f, x + 1, hi);
    }
}

/// The bucket of a grey level.
pub open spec fn bucket_of(luminance: u8) -> int {
    luminance as int / 8
}

/// The number of the first `n` grey levels from place `from` on that fall into `bucket`.
pub open spec fn bucket_count(luminances: Seq<u8>, from: int, n: nat, bucket: int) -> nat {
    count_below(|x: int| bucket_of(luminances[from + x]) == bucket, n)
}

/// The histogram of the `n` grey levels from place `from` on.
pub open spec fn row_histogram(luminances: Seq<u8>, from: int, n: nat) -> Seq<u32> {
    Seq::new(LUMINANCE_BUCKETS as nat, |b: int| bucket_count(luminances, from, n, b) as u32)
}

/// The place in the grey levels of the `k`-th sample row of an image, at a fifth of its
/// width from the left: the sample rows lie at one, two, three and four fifths of the
/// height.
pub open spec fn sample_start(width: int, height: int, k: int) -> int {
    (height * k / 5) * width + width / 5
}

/// The histogram of the sample of an image: the middle three fifths of four rows.
pub open spec fn sample_histogram(luminances: Seq<u8>, width: int, height: int) -> Seq<u32> {
    let n = (width * 4 / 5 - width / 5) as nat;
    Seq::new(
        LUMINANCE_BUCKETS as nat,
        |b: int|
            (bucket_count(luminances, sample_start(width, height, 1), n, b) + bucket_count(
                luminances,
                sample_start(width, height, 2),
                n,
                b,
            ) + bucket_count(luminances, sample_start(width, height, 3), n, b) + bucket_count(
                luminances,
                sample_start(width, height, 4),
                n,
                b,
            )) as u32,
    )
}

/// Whether the pixel at place `x` of a row is black: without neighbours on both sides
/// its grey level is compared with the threshold, else the grey level sharpened against
/// its neighbours.
pub open spec fn row_pixel_black(luminances: Seq<u8>, width: int, black_point: int, x: int) -> bool {
    if width < 3 {
        (luminances[x] as int) < black_point
    } else {
        1 <= x < width - 1 && (luminances[x] * 4 - luminances[x - 1] - luminances[x + 1]) / 2
            < black_point
    }
}

/// A count is at most the number of places counted over.
pub proof fn lemma_bucket_count_bound(luminances: Seq<u8>, from: int, n: nat, bucket: int)
    ensures
        bucket_count(luminances, from, n, bucket) <= n,
{
    crate::qrcode::encoder::mask_util::lemma_count_below_bound(
        |x: int| bucket_of(luminances[from + x]) == bucket,
        n,
    );
}

/// An image of `width` by `height` pixels has no more than the greatest number of pixels
/// where the height is no more than that number by the width goes, and only there; and
/// then neither side is longer than that number.
pub proof fn lemma_pixels(width: int, height: int)
    requires
        1 <= width,
        1 <= height,
    ensures
        width * height <= MAX_IMAGE_PIXELS <==> height <= MAX_IMAGE_PIXELS as int / width,
        width * height <= MAX_IMAGE_PIXELS ==> width <= MAX_IMAGE_PIXELS && height
            <= MAX_IMAGE_PIXELS,
{
    let most = MAX_IMAGE_PIXELS as int;
    let q = most / width;
    vstd::arithmetic::div_mod::lemma_fundamental_div_mod(most, width);
    vstd::arithmetic::div_mod::lemma_mod_bound(most, width);
    if height <= q {
        assert(width * height <= width * q) by (nonlinear_arith)
            requires
                height <= q,
                width >= 1,
        ;
    } else {
        assert(width * height >= width * q + width) by (nonlinear_arith)
            requires
                height >= q + 1,
                width >= 1,
        ;
    }
    assert(width * height >= width && width * height >= height) by (nonlinear_arith)
        requires
            width >= 1,
            height >= 1,
    ;
}

impl<S> GlobalHistogramBinarizer<S> {
    pub closed spec fn spec_source(&self) -> S {
        self.source
    }

    /// The binarizer of `source`.
    pub fn new(source: S) -> (b: GlobalHistogramBinarizer<S>)
        ensures
            b.spec_source() == source,
    {
        GlobalHistogramBinarizer { source }
    }

    /// A histogram with nothing counted.
    pub fn init_arrays() -> (buckets: Vec<u32>)
        ensures
            buckets@.len() == LUMINANCE_BUCKETS,
            forall|b: int| 0 <= b < LUMINANCE_BUCKETS ==> buckets@[b] == 0,
    {
        vec![0u32; LUMINANCE_BUCKETS]
    }

    /// Counts the `n` grey levels from place `from` on into the histogram.
    pub fn count_into(buckets: &mut Vec<u32>, luminances: &Vec<u8>, from: usize, n: usize)
        requires
            old(buckets)@.len() == LUMINANCE_BUCKETS,
            from + n <= luminances@.len(),
            forall|b: int| 0 <= b < LUMINANCE_BUCKETS ==> old(buckets)@[b] + n <= u32::MAX,
        ensures
            final(buckets)@.len() == LUMINANCE_BUCKETS,
            forall|b: int|
                0 <= b < LUMINANCE_BUCKETS ==> #[trigger] final(buckets)@[b] == old(buckets)@[b]
                    + bucket_count(luminances@, from as int, n as nat, b),
    {
        let ghost start = buckets@;
        let length = luminances.len();
        let mut x: usize = 0;
        while x < n
            invariant
                x <= n,
                length == luminances@.len(),
                from + n <= luminances@.len(),
                buckets@.len() == LUMINANCE_BUCKETS,
                start.len() == LUMINANCE_BUCKETS,
                forall|b: int| 0 <= b < LUMINANCE_BUCKETS ==> start[b] + n <= u32::MAX,
                forall|b: int|
                    0 <= b < LUMINANCE_BUCKETS ==> #[trigger] buckets@[b] == start[b] + bucket_count(
                        luminances@,
                        from as int,
                        x as nat,
                        b,
                    ),
            decreases n - x,
        {
            let bucket: usize = (luminances[from + x] / 8) as usize;
            proof {
                lemma_bucket_count_bound(luminances@, from as int, x as nat, bucket as int);
            }
            let count = buckets[bucket];
            buckets[bucket] = count + 1;
            x += 1;
        }
    }

    /// The threshold between black and white for the histogram. A histogram whose two
    /// peaks are too near to each other is refused: the image has too little contrast.
    pub fn estimateBlackPoint(buckets: &Vec<u32>) -> (r: Result<usize, Error>)
        requires
            1 <= buckets@.len() <= 0x100,
        ensures
            match black_point_of(buckets@) {
                Some(point) => r matches Ok(p) && p == point,
                None => r matches Err(e) && e is NotFoundException,
            },
    {
        // The tallest peak of the histogram.
        let numBuckets = buckets.len();
        let ghost counts = counts_of(buckets@);
        let mut firstPeak: usize = 0;
        let mut x: usize = 1;
        while x < numBuckets
            invariant
                1 <= x <= numBuckets,
                numBuckets == buckets@.len(),
                counts == counts_of(buckets@),
                firstPeak < x,
                firstPeak == first_greatest_below(counts, x as nat),
            decreases numBuckets - x,
        {
            if buckets[x] > buckets[firstPeak] {
                firstPeak = x;
            }
            x += 1;
        }
        let maxBucketCount: u32 = buckets[firstPeak];
        let ghost tallest = firstPeak as int;
        proof {
            lemma_first_greatest(counts, numBuckets as nat);
            assert forall|k: int| 0 <= k < numBuckets implies buckets@[k] <= maxBucketCount by {
                assert(counts(k) <= counts(tallest));
            }
        }
        // The second peak is tall and far from the first.
        let ghost scores = peak_scores(buckets@, tallest);
        let mut secondPeak: usize = 0;
        let mut secondPeakScore: u64 = GlobalHistogramBinarizer::<S>::peak_score(
            buckets,
            firstPeak,
            0,
        );
        let mut x: usize = 1;
        while x < numBuckets
            invariant
                1 <= x <= numBuckets,
                numBuckets == buckets@.len(),
                numBuckets <= 0x100,
                firstPeak < numBuckets,
                tallest == firstPeak,
                scores == peak_scores(buckets@, tallest),
                secondPeak < x,
                secondPeak == first_greatest_below(scores, x as nat),
                secondPeakScore == scores(secondPeak as int),
                forall|k: int| 0 <= k < numBuckets ==> buckets@[k] <= maxBucketCount,
            decreases numBuckets - x,
        {
            let score = GlobalHistogramBinarizer::<S>::peak_score(buckets, firstPeak, x);
            if score > secondPeakScore {
                secondPeak = x;
                secondPeakScore = score;
            }
            x += 1;
        }
        // The first peak is to be the black one.
        if firstPeak > secondPeak {
            let temp = firstPeak;
            firstPeak = secondPeak;
            secondPeak = temp;
        }
        // Too little contrast gives no threshold that means anything.
        if secondPeak - firstPeak <= numBuckets / 16 {
            return Err(Error::NotFoundException("Too little contrast in the image".to_owned()));
        }
        // The valley between the peaks is low and near to the white peak.
        let ghost valleys = valley_scores(
            buckets@,
            firstPeak as int,
            secondPeak as int,
            maxBucketCount as int,
        );
        let mut bestValley: usize = secondPeak - 1;
        if bestValley <= firstPeak {
            return Ok(bestValley * LUMINANCE_PER_BUCKET);
        }
        let mut bestValleyScore: u64 = GlobalHistogramBinarizer::<S>::valley_score(
            buckets,
            firstPeak,
            secondPeak,
            maxBucketCount,
            bestValley,
        );
        let mut x: usize = secondPeak - 1;
        while x > firstPeak + 1
            invariant
                numBuckets == buckets@.len(),
                numBuckets <= 0x100,
                firstPeak + 1 <= x <= secondPeak - 1,
                secondPeak < numBuckets,
                forall|k: int| 0 <= k < numBuckets ==> buckets@[k] <= maxBucketCount,
                valleys == valley_scores(
                    buckets@,
                    firstPeak as int,
                    secondPeak as int,
                    maxBucketCount as int,
                ),
                x <= bestValley < secondPeak,
                bestValley == last_greatest_from(valleys, x as int, secondPeak as int),
                bestValleyScore == valleys(bestValley as int),
            decreases x,
        {
            x -= 1;
            let score = GlobalHistogramBinarizer::<S>::valley_score(
                buckets,
                firstPeak,
                secondPeak,
                maxBucketCount,
                x,
            );
            if score > bestValleyScore {
                bestValley = x;
                bestValleyScore = score;
            }
        }
        Ok(bestValley * LUMINANCE_PER_BUCKET)
    }

    /// The weight of bucket `x` as a second peak beside the peak at `peak`.
    fn peak_score(buckets: &Vec<u32>, peak: usize, x: usize) -> (score: u64)
        requires
            buckets@.len() <= 0x100,
            peak < buckets@.len(),
            x < buckets@.len(),
        ensures
            score == peak_scores(buckets@, peak as int)(x as int),
    {
        let distance: u64 = if x >= peak {
            (x - peak) as u64
        } else {
            (peak - x) as u64
        };
        let count: u64 = buckets[x] as u64;
        assert(distance * distance <= 0x10000 && count * (distance * distance) <= 0x1_0000_0000
            * 0x10000) by (nonlinear_arith)
            requires
                distance <= 0x100,
                count <= 0xFFFF_FFFF,
        ;
        assert(count * (distance * distance) == buckets@[x as int] * (x - peak) * (x - peak))
            by (nonlinear_arith)
            requires
                count == buckets@[x as int],
                distance == x - peak || distance == peak - x,
        ;
        count * (distance * distance)
    }

    /// The weight of bucket `x` as the valley between the peaks at `first` and `second`.
    fn valley_score(buckets: &Vec<u32>, first: usize, second: usize, greatest: u32, x: usize) -> (score:
        u64)
        requires
            buckets@.len() <= 0x100,
            first < x < second < buckets@.len(),
            buckets@[x as int] <= greatest,
        ensures
            score == valley_scores(buckets@, first as int, second as int, greatest as int)(x as int),
    {
        let from_first: u64 = (x - first) as u64;
        let to_second: u64 = (second - x) as u64;
        let depth: u64 = (greatest - buckets[x]) as u64;
        assert(from_first * from_first <= 0x10000 && from_first * from_first * to_second
            <= 0x100_0000 && from_first * from_first * to_second * depth <= 0x100_0000
            * 0x1_0000_0000) by (nonlinear_arith)
            requires
                from_first <= 0x100,
                to_second <= 0x100,
                depth <= 0xFFFF_FFFF,
        ;
        from_first * from_first * to_second * depth
    }

    /// Whether `r` is what turning a row of `width` grey levels into black and white
    /// gives: a row of fewer than `width` grey levels is refused, and so is a row that is
    /// too wide; without a threshold nothing is found; else a pixel is black where its
    /// grey level, sharpened against its neighbours, is below the threshold.
    pub open spec fn row_made(luminances: Seq<u8>, width: usize, r: Result<BitArray, Error>) -> bool {
        &&& (luminances.len() < width || width > MAX_IMAGE_PIXELS) ==> (r matches Err(e)
            && e is IllegalArgumentException)
        &&& (width <= luminances.len() && width <= MAX_IMAGE_PIXELS) ==> match black_point_of(
            row_histogram(luminances, 0, width as nat),
        ) {
            None => r matches Err(e) && e is NotFoundException,
            Some(point) => r matches Ok(row) && row.wf() && row@.len() == width && forall|
                x: int,
            |
                0 <= x < width ==> #[trigger] row@[x] == row_pixel_black(
                    luminances,
                    width as int,
                    point,
                    x,
                ),
        }
    }

    /// Whether `r` is what turning an image of `width` by `height` grey levels into black
    /// and white by one threshold gives: an image that cannot be held is refused;
    /// without a threshold nothing is found; else a pixel is black where its grey level
    /// is below the threshold.
    pub open spec fn matrix_made(
        luminances: Seq<u8>,
        width: usize,
        height: usize,
        r: Result<BitMatrix, Error>,
    ) -> bool {
        &&& !GlobalHistogramBinarizer::<S>::holds_image(luminances, width as int, height as int)
            ==> (r matches Err(e) && e is IllegalArgumentException)
        &&& GlobalHistogramBinarizer::<S>::holds_image(luminances, width as int, height as int)
            ==> match black_point_of(sample_histogram(luminances, width as int, height as int)) {
            None => r matches Err(e) && e is NotFoundException,
            Some(point) => r matches Ok(m) && m.wf() && m.spec_width() == width
                && m.spec_height() == height && forall|x: int, y: int|
                0 <= x < width && 0 <= y < height ==> #[trigger] m.cell(x, y) == ((
                luminances[y * width + x] as int) < point),
        }
    }

    /// Row of grey levels in black and white: the threshold is taken from the histogram
    /// of the row, and a pixel is black where its grey level, sharpened against its
    /// neighbours, is below the threshold. A row of fewer than `width` grey levels is
    /// refused, and so is a row that is too wide.
    pub fn black_row(luminances: &Vec<u8>, width: usize) -> (r: Result<BitArray, Error>)
        ensures
            GlobalHistogramBinarizer::<S>::row_made(luminances@, width, r),
    {
        if luminances.len() < width || width > MAX_IMAGE_PIXELS {
            return Err(Error::IllegalArgumentException("The row is too short".to_owned()));
        }
        let mut buckets = GlobalHistogramBinarizer::<S>::init_arrays();
        GlobalHistogramBinarizer::<S>::count_into(&mut buckets, luminances, 0, width);
        proof {
            assert(buckets@ =~= row_histogram(luminances@, 0, width as nat)) by {
                assert forall|b: int| 0 <= b < LUMINANCE_BUCKETS implies buckets@[b]
                    == row_histogram(luminances@, 0, width as nat)[b] by {
                    lemma_bucket_count_bound(luminances@, 0, width as nat, b);
                }
            }
        }
        let blackPoint = match GlobalHistogramBinarizer::<S>::estimateBlackPoint(&buckets) {
            Ok(blackPoint) => blackPoint,
            Err(e) => {
                return Err(e);
            },
        };
        let mut row = BitArray::new();
        let mut x: usize = 0;
        while x < width
            invariant
                x <= width <= luminances@.len(),
                width <= MAX_IMAGE_PIXELS,
                row.wf(),
                row.clean(),
                row@.len() == x,
                forall|k: int|
                    0 <= k < x ==> #[trigger] row@[k] == row_pixel_black(
                        luminances@,
                        width as int,
                        blackPoint as int,
                        k,
                    ),
            decreases width - x,
        {
            let black: bool = if width < 3 {
                (luminances[x] as usize) < blackPoint
            } else if x >= 1 && x + 1 < width {
                let left = luminances[x - 1] as i32;
                let center = luminances[x] as i32;
                let right = luminances[x + 1] as i32;
                // A -1 4 -1 box filter with a weight of 2.
                let weighed: i32 = center * 4 - left - right;
                weighed < 0 || ((weighed / 2) as usize) < blackPoint
            } else {
                false
            };
            let ghost before = row@;
            row.append_bit(black);
            proof {
                assert forall|k: int| 0 <= k < x + 1 implies #[trigger] row@[k] == row_pixel_black(
                    luminances@,
                    width as int,
                    blackPoint as int,
                    k,
                ) by {
                    if k < x {
                        assert(row@[k] == before[k]);
                    }
                }
            }
            x += 1;
        }
        Ok(row)
    }

    /// The image of `width` by `height` grey levels in black and white: the threshold
    /// is taken from the histogram of a sample, and a pixel is black where its grey level
    /// is below the threshold. Fewer grey levels than pixels are refused, and so is an
    /// image that cannot be held.
    pub fn black_matrix(luminances: &Vec<u8>, width: usize, height: usize) -> (r: Result<
        BitMatrix,
        Error,
    >)
        ensures
            GlobalHistogramBinarizer::<S>::matrix_made(luminances@, width, height, r),
    {
        if width < 1 || height < 1 {
            return Err(Error::IllegalArgumentException("The image cannot be held".to_owned()));
        }
        proof {
            lemma_pixels(width as int, height as int);
        }
        if width > MAX_IMAGE_PIXELS || height > MAX_IMAGE_PIXELS / width {
            return Err(Error::IllegalArgumentException("The image cannot be held".to_owned()));
        }
        let pixels: usize = width * height;
        if pixels > luminances.len() {
            return Err(Error::IllegalArgumentException("The image cannot be held".to_owned()));
        }
        let mut matrix = match BitMatrix::new2(width, height) {
            Ok(matrix) => matrix,
            Err(e) => {
                return Err(e);
            },
        };
        // The histogram of four rows of the image.
        let mut buckets = GlobalHistogramBinarizer::<S>::init_arrays();
        let left: usize = width / 5;
        let right: usize = (width * 4) / 5;
        let ghost n = (right - left) as nat;
        let mut y: usize = 1;
        while y < 5
            invariant
                1 <= y <= 5,
                1 <= width <= MAX_IMAGE_PIXELS,
                1 <= height <= MAX_IMAGE_PIXELS,
                width * height <= luminances@.len(),
                width * height <= 0x4000_0000,
                left == width / 5,
                right == width * 4 / 5,
                n == right - left,
                buckets@.len() == LUMINANCE_BUCKETS,
                forall|b: int|
                    0 <= b < LUMINANCE_BUCKETS ==> #[trigger] buckets@[b]
                        == GlobalHistogramBinarizer::<S>::sampled(
                        luminances@,
                        width as int,
                        height as int,
                        n,
                        y as int,
                        b,
                    ),
                forall|b: int| 0 <= b < LUMINANCE_BUCKETS ==> #[trigger] buckets@[b] <= (y - 1) * n,
                n <= 0x2000_0000,
            decreases 5 - y,
        {
            assert(height * y <= 0x2000_0000 * 4) by (nonlinear_arith)
                requires
                    height <= 0x2000_0000,
                    y <= 4,
            ;
            assert(height * y / 5 < height) by (nonlinear_arith)
                requires
                    height >= 1,
                    1 <= y <= 4,
            ;
            let row: usize = height * y / 5;
            assert(row * width + width <= width * height && row * width >= 0 && (y - 1) * n
                <= 3 * 0x2000_0000 && y * n == (y - 1) * n + n) by (nonlinear_arith)
                requires
                    0 <= row,
                    row + 1 <= height,
                    width >= 0,
                    1 <= y <= 4,
                    0 <= n <= 0x2000_0000,
            ;
            proof {
                assert(row < height);
                assert(row * width + width <= width * height) by (nonlinear_arith)
                    requires
                        row + 1 <= height,
                        width >= 0,
                ;
                assert(row * width >= 0) by (nonlinear_arith)
                    requires
                        row >= 0,
                        width >= 0,
                ;
                assert forall|b: int| 0 <= b < LUMINANCE_BUCKETS implies buckets@[b] + (right
                    - left) <= u32::MAX by {
                    assert(buckets@[b] <= (y - 1) * n);
                }
            }
            let ghost before = buckets@;
            GlobalHistogramBinarizer::<S>::count_into(
                &mut buckets,
                luminances,
                row * width + left,
                right - left,
            );
            proof {
                assert forall|b: int| 0 <= b < LUMINANCE_BUCKETS implies #[trigger] buckets@[b]
                    <= y * n by {
                    lemma_bucket_count_bound(luminances@, (row * width + left) as int, n, b);
                    assert(before[b] <= (y - 1) * n);
                }
            }
            y += 1;
        }
        proof {
            assert(buckets@ =~= sample_histogram(luminances@, width as int, height as int));
        }
        let blackPoint = match GlobalHistogramBinarizer::<S>::estimateBlackPoint(&buckets) {
            Ok(blackPoint) => blackPoint,
            Err(e) => {
                return Err(e);
            },
        };
        // The whole image is read only when there is a threshold.
        let mut y: usize = 0;
        while y < height
            invariant
                y <= height,
                1 <= width <= MAX_IMAGE_PIXELS,
                1 <= height <= MAX_IMAGE_PIXELS,
                width * height <= luminances@.len(),
                width * height <= 0x4000_0000,
                matrix.wf(),
                matrix.spec_width() == width,
                matrix.spec_height() == height,
                forall|cx: int, cy: int|
                    0 <= cx < width && 0 <= cy < height ==> #[trigger] matrix.cell(cx, cy) == (cy
                        < y && (luminances@[cy * width + cx] as int) < blackPoint),
            decreases height - y,
        {
            proof {
                assert(y * width + width <= width * height) by (nonlinear_arith)
                    requires
                        y + 1 <= height,
                        width >= 0,
                ;
                assert(y * width >= 0) by (nonlinear_arith)
                    requires
                        y >= 0,
                        width >= 0,
                ;
            }
            assert(y * width <= width * height) by (nonlinear_arith)
                requires
                    y <= height,
                    width >= 0,
            ;
            let offset: usize = y * width;
            let mut x: usize = 0;
            while x < width
                invariant
                    x <= width,
                    y < height,
                    offset == y * width,
                    offset + width <= luminances@.len(),
                    offset + width <= 0x4000_0000,
                    matrix.wf(),
                    matrix.spec_width() == width,
                    matrix.spec_height() == height,
                    forall|cx: int, cy: int|
                        0 <= cx < width && 0 <= cy < height ==> #[trigger] matrix.cell(cx, cy) == ((
                        cy < y || (cy == y && cx < x)) && (luminances@[cy * width + cx] as int)
                            < blackPoint),
                decreases width - x,
            {
                let pixel = luminances[offset + x];
                if (pixel as usize) < blackPoint {
                    matrix.set(x, y);
                }
                x += 1;
            }
            y += 1;
        }
        Ok(matrix)
    }

    /// Whether the grey levels are those of an image of `width` by `height` pixels that
    /// can be held.
    pub open spec fn holds_image(luminances: Seq<u8>, width: int, height: int) -> bool {
        &&& 1 <= width
        &&& 1 <= height
        &&& width * height <= MAX_IMAGE_PIXELS
        &&& width * height <= luminances.len()
        &&& BitMatrix::fits(width, height)
    }

    /// The count of `bucket` in the sample rows before the `y`-th.
    pub open spec fn sampled(luminances: Seq<u8>, width: int, height: int, n: nat, y: int, bucket: int) -> int {
        (if y > 1 {
            bucket_count(luminances, sample_start(width, height, 1), n, bucket) as int
        } else {
            0
        }) + (if y > 2 {
            bucket_count(luminances, sample_start(width, height, 2), n, bucket) as int
        } else {
            0
        }) + (if y > 3 {
            bucket_count(luminances, sample_start(width, height, 3), n, bucket) as int
        } else {
            0
        }) + (if y > 4 {
            bucket_count(luminances, sample_start(width, height, 4), n, bucket) as int
        } else {
            0
        })
    }
}

impl<S: LuminanceSource> GlobalHistogramBinarizer<S> {
    /// Whether `r` is row `y` of `source` in black and white: what is made of a width
    /// and a row that the source gives. Where the source fails, its error is handed on.
    pub open spec fn row_of_source(source: S, y: usize, r: Result<BitArray, Error>) -> bool {
        exists|width: usize, buffer: Vec<u8>, given: Result<Vec<u8>, Error>|
            #![trigger gives_width(source, width), gives_row(source, y, buffer, given)]
            gives_width(source, width) && buffer@.len() == 0 && gives_row(
                source,
                y,
                buffer,
                given,
            ) && match given {
                Ok(levels) => GlobalHistogramBinarizer::<S>::row_made(levels@, width, r),
                Err(e) => fails_with(r, e),
            }
    }

    /// Whether `r` is the image of `source` in black and white: what is made of a width,
    /// a height and grey levels that the source gives. Where the source fails, its error
    /// is handed on.
    pub open spec fn matrix_of_source(source: S, r: Result<BitMatrix, Error>) -> bool {
        exists|width: usize, height: usize, given: Result<Vec<u8>, Error>|
            #![trigger gives_width(source, width), gives_height(source, height), gives_matrix(source, given)]
            gives_width(source, width) && gives_height(source, height) && gives_matrix(
                source,
                given,
            ) && match given {
                Ok(levels) => GlobalHistogramBinarizer::<S>::matrix_made(
                    levels@,
                    width,
                    height,
                    r,
                ),
                Err(e) => fails_with(r, e),
            }
    }
}

impl<S: LuminanceSource> Binarizer<S> for GlobalHistogramBinarizer<S> {
    // Sharpens the row, which helps the readers of one-dimensional codes.
    fn get_black_row(&self, y: usize, row: &BitArray) -> (r: Result<BitArray, Error>)
        ensures
            GlobalHistogramBinarizer::<S>::row_of_source(self.spec_source(), y, r),
    {
        let width = self.source.get_width();
        let buffer: Vec<u8> = Vec::new();
        let given = self.source.get_row(y, &buffer);
        let r = match given {
            Ok(luminances) => GlobalHistogramBinarizer::<S>::black_row(&luminances, width),
            Err(e) => Err(e),
        };
        proof {
            assert(gives_width(self.source, width) && gives_row(self.source, y, buffer, given));
        }
        r
    }

    open spec fn makes_matrix(&self, r: Result<BitMatrix, Error>) -> bool {
        GlobalHistogramBinarizer::<S>::matrix_of_source(self.spec_source(), r)
    }

    // Does not sharpen, since this is for the readers of two-dimensional codes.
    fn get_black_matrix(&mut self) -> (r: Result<BitMatrix, Error>)
        ensures
            final(self).spec_source() == old(self).spec_source(),
    {
        let width = self.source.get_width();
        let height = self.source.get_height();
        let given = self.source.get_matrix();
        let r = match given {
            Ok(luminances) => GlobalHistogramBinarizer::<S>::black_matrix(
                &luminances,
                width,
                height,
            ),
            Err(e) => Err(e),
        };
        proof {
            assert(gives_width(self.source, width) && gives_height(self.source, height)
                && gives_matrix(self.source, given));
        }
        r
    }

    fn get_width(&self) -> (w: usize)
        ensures
            gives_width(self.spec_source(), w),
    {
        self.source.get_width()
    }

    fn get_height(&self) -> (h: usize)
        ensures
            gives_height(self.spec_source(), h),
    {
        self.source.get_height()
    }

    fn get_luminance_source(&self) -> (r: Result<&S, Error>)
        ensures
            r matches Ok(source) && *source == self.spec_source(),
    {
        Ok(&self.source)
    }

    fn create_binarizer(&self, source: S) -> (b: Self)
        ensures
            b.spec_source() == source,
    {
        GlobalHistogramBinarizer::new(source)
    }
}

} // verus!
