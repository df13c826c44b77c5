#![allow(non_snake_case)]

use crate::binarizer::Binarizer;
use crate::binary_bitmap::BinaryBitmap;
use crate::common::bit_matrix::BitMatrix;
use crate::common::charset::{push_char, Charset};
use crate::common::decoder_result::DecoderResult;
use crate::decode_hint_type::DecodeHints;
use crate::error::Error;
use crate::luminance_source::{fails_with, LuminanceSource};
use crate::qrcode::decoder::decoder::Decoder;
use crate::result_metadata_type::ResultMetadataType;
use vstd::prelude::*;
use vstd::string::StrSliceExecFns;

verus! {

/// Finds a QR code in an image in black and white and reads it.
pub struct QRCodeReader {
    decoder: Decoder,
}

/// The column at which the walk down the diagonal from `(x, y)` meets its fifth change
/// of colour, or `None` where it leaves the image before. `in_black` is the colour
/// before `(x, y)`, and `transitions` the number of changes met so far.
pub open spec fn fifth_transition(image: BitMatrix, x: int, y: int, in_black: bool, transitions: int) -> Option<
    int,
>
    decreases image.spec_width() - x,
{
    if x < 0 || y < 0 || x >= image.spec_width() || y >= image.spec_height() {
        None
    } else if in_black != image.cell(x, y) {
        if transitions + 1 == 5 {
            Some(x)
        } else {
            fifth_transition(image, x + 1, y + 1, !in_black, transitions + 1)
        }
    } else {
        fifth_transition(image, x + 1, y + 1, in_black, transitions)
    }
}

/// Where the modules of a symbol lie in an image that holds nothing else.
pub struct PureLayout {
    /// The column of the middle of the leftmost modules.
    pub left: int,
    /// The row of the middle of the topmost modules.
    pub top: int,
    /// The number of modules along a side.
    pub size: int,
    /// Seven times the side of a module, in pixels.
    pub sevenths: int,
}

/// The quotient of `a` by `b`, rounded to the nearest whole number.
pub open spec fn rounded_quotient(a: int, b: int) -> int {
    (2 * a + b) / (2 * b)
}

/// The place of a sample: `start` and `k` modules of `sevenths` sevenths of a pixel.
pub open spec fn sample_place(start: int, k: int, sevenths: int) -> int {
    start + k * sevenths / 7
}

/// Where the modules of the symbol lie whose first black pixel is `(left, top)` and
/// whose last is `(right, bottom)`, where the walk down the diagonal from the first has
/// met its fifth change of colour after `sevenths` pixels: the position detection
/// pattern is seven modules wide. The symbol is a square; the samples are taken from
/// the middle of the modules, and moved back where the last of them would lie beyond
/// the symbol. `None` where nothing of this fits.
pub open spec fn layout_within(
    width: int,
    left: int,
    top: int,
    right: int,
    bottom: int,
    sevenths: int,
) -> Option<PureLayout> {
    if left >= right || top >= bottom || sevenths <= 0 {
        None
    } else {
        let right = if bottom - top != right - left {
            left + (bottom - top)
        } else {
            right
        };
        if right >= width {
            None
        } else {
            let matrix_width = rounded_quotient(7 * (right - left + 1), sevenths);
            let matrix_height = rounded_quotient(7 * (bottom - top + 1), sevenths);
            if matrix_width <= 0 || matrix_height <= 0 || matrix_height != matrix_width
                || !BitMatrix::fits(matrix_width, matrix_width) {
                None
            } else {
                let nudge = sevenths / 14;
                let too_far_right = sample_place(left + nudge, matrix_width - 1, sevenths) - right;
                let too_far_down = sample_place(top + nudge, matrix_height - 1, sevenths) - bottom;
                if too_far_right > nudge || too_far_down > nudge {
                    None
                } else {
                    Some(
                        PureLayout {
                            left: if too_far_right > 0 {
                                left + nudge - too_far_right
                            } else {
                                left + nudge
                            },
                            top: if too_far_down > 0 {
                                top + nudge - too_far_down
                            } else {
                                top + nudge
                            },
                            size: matrix_width,
                            sevenths,
                        },
                    )
                }
            }
        }
    }
}

/// Where the modules of the symbol lie that the image holds, or `None` where it holds
/// none.
pub open spec fn pure_layout(image: BitMatrix) -> Option<PureLayout> {
    if image.all_clear() {
        None
    } else {
        let first = choose|p: (int, int)| image.is_top_left(p.0, p.1);
        let last = choose|p: (int, int)| image.is_bottom_right(p.0, p.1);
        match fifth_transition(image, first.0, first.1, true, 0) {
            None => None,
            Some(x) => layout_within(
                image.spec_width(),
                first.0,
                first.1,
                last.0,
                last.1,
                x - first.0,
            ),
        }
    }
}

/// No two cells are the first black one.
pub proof fn lemma_one_top_left(image: BitMatrix, a: (int, int), b: (int, int))
    requires
        image.is_top_left(a.0, a.1),
        image.is_top_left(b.0, b.1),
    ensures
        a == b,
{
}

/// No two cells are the last black one.
pub proof fn lemma_one_bottom_right(image: BitMatrix, a: (int, int), b: (int, int))
    requires
        image.is_bottom_right(a.0, a.1),
        image.is_bottom_right(b.0, b.1),
    ensures
        a == b,
{
}

/// The product of the number of modules of a side less one and the side of a module
/// stays near the side of the symbol.
pub proof fn lemma_rounded_span(span: int, sevenths: int)
    requires
        span >= 1,
        sevenths >= 1,
    ensures
        rounded_quotient(7 * span, sevenths) >= 0,
        rounded_quotient(7 * span, sevenths) * sevenths <= 7 * span + sevenths,
        rounded_quotient(7 * span, sevenths) >= 1 ==> 0 <= (rounded_quotient(7 * span, sevenths)
            - 1) * sevenths <= 7 * span,
{
    let q = rounded_quotient(7 * span, sevenths);
    vstd::arithmetic::div_mod::lemma_fundamental_div_mod(14 * span + sevenths, 2 * sevenths);
    vstd::arithmetic::div_mod::lemma_div_pos_is_pos(14 * span + sevenths, 2 * sevenths);
    assert(q * (2 * sevenths) <= 14 * span + sevenths) by (nonlinear_arith)
        requires
            14 * span + sevenths == (2 * sevenths) * q + (14 * span + sevenths) % (2 * sevenths),
            (14 * span + sevenths) % (2 * sevenths) >= 0,
    ;
    assert(q * sevenths <= 7 * span + sevenths) by (nonlinear_arith)
        requires
            q * (2 * sevenths) <= 14 * span + sevenths,
            sevenths >= 1,
    ;
    assert(q >= 1 ==> 0 <= (q - 1) * sevenths <= 7 * span) by (nonlinear_arith)
        requires
            q * sevenths <= 7 * span + sevenths,
            sevenths >= 1,
    ;
}

impl QRCodeReader {
    /// The decoder of the reader.
    pub closed spec fn spec_decoder(&self) -> Decoder {
        self.decoder
    }

    /// A reader with a decoder that knows the forty versions.
    pub fn new() -> (r: QRCodeReader)
        ensures
            r.spec_decoder().spec_versions().wf(),
    {
        QRCodeReader { decoder: Decoder::new() }
    }

    /// Whether `bits` holds the modules that the layout finds in `image`.
    pub open spec fn samples(bits: BitMatrix, image: BitMatrix, layout: PureLayout) -> bool {
        &&& bits.wf()
        &&& bits.spec_width() == layout.size
        &&& bits.spec_height() == layout.size
        &&& forall|x: int, y: int|
            0 <= x < layout.size && 0 <= y < layout.size ==> #[trigger] bits.cell(x, y)
                == image.cell(
                sample_place(layout.left, x, layout.sevenths),
                sample_place(layout.top, y, layout.sevenths),
            )
    }

    /// Whether `r` is what reading `image` gives: where no symbol is found, nothing is
    /// found; else what decoding the modules that are sampled gives.
    pub open spec fn reads(
        &self,
        image: BitMatrix,
        hint: Option<Charset>,
        r: Result<DecoderResult, Error>,
    ) -> bool {
        match pure_layout(image) {
            None => r matches Err(e) && e is NotFoundException,
            Some(layout) => exists|bits: BitMatrix|
                QRCodeReader::samples(bits, image, layout) && #[trigger] self.spec_decoder().gives(
                    bits,
                    hint,
                    r,
                ),
        }
    }

    /// What the symbol in `image` holds, where the image holds nothing but the symbol:
    /// the modules are sampled and decoded. An image without such a symbol is refused as
    /// one in which nothing is found; a symbol that cannot be read, with the error of
    /// the decoder.
    pub fn decode_matrix(&self, image: &BitMatrix, hints: &DecodeHints) -> (r: Result<
        DecoderResult,
        Error,
    >)
        requires
            image.wf(),
        ensures
            self.reads(*image, hints.character_set, r),
    {
        let bits = match QRCodeReader::extractPureBits(image) {
            Ok(bits) => bits,
            Err(e) => {
                return Err(e);
            },
        };
        let r = self.decoder.decode_hints(&bits, hints);
        proof {
            assert(QRCodeReader::samples(bits, *image, pure_layout(*image)->Some_0)
                && self.spec_decoder().gives(bits, hints.character_set, r));
        }
        r
    }

    /// What the reader says of a result beyond its text: the level of error correction,
    /// where the result names one, and the symbology identifier, `]Q` and the digit of
    /// the modifier, where the modifier is a digit.
    pub open spec fn spec_metadata(result: DecoderResult) -> Seq<(ResultMetadataType, Seq<char>)> {
        let level = if result.spec_ec_level().len() > 0 {
            seq![(ResultMetadataType::ErrorCorrectionLevel, result.spec_ec_level())]
        } else {
            Seq::empty()
        };
        let identifier = if 0 <= result.spec_modifier() <= 9 {
            seq![
                (
                    ResultMetadataType::SymbologyIdentifier,
                    seq![']', 'Q', ((48 + result.spec_modifier()) as u8) as char],
                ),
            ]
        } else {
            Seq::empty()
        };
        level + identifier
    }

    /// What the reader says of a result beyond its text.
    pub fn metadata(result: &DecoderResult) -> (r: Vec<(ResultMetadataType, String)>)
        ensures
            r@.len() == QRCodeReader::spec_metadata(*result).len(),
            forall|i: int|
                0 <= i < r@.len() ==> (#[trigger] r@[i]).0 == QRCodeReader::spec_metadata(
                    *result,
                )[i].0 && r@[i].1@ == QRCodeReader::spec_metadata(*result)[i].1,
    {
        let mut r: Vec<(ResultMetadataType, String)> = Vec::new();
        let level = result.getECLevel();
        if level.as_str().unicode_len() > 0 {
            r.push((ResultMetadataType::ErrorCorrectionLevel, level.clone()));
        }
        let modifier = result.getSymbologyModifier();
        if 0 <= modifier && modifier <= 9 {
            let mut identifier = String::new();
            push_char(&mut identifier, ']');
            push_char(&mut identifier, 'Q');
            push_char(&mut identifier, ((48 + modifier) as u8) as char);
            proof {
                assert(identifier@ =~= seq![']', 'Q', ((48 + modifier) as u8) as char]);
            }
            r.push((ResultMetadataType::SymbologyIdentifier, identifier));
        }
        r
    }

    /// Whether `r` is what reading the image that `binarizer` makes gives: what reading
    /// the matrix that the binarizer gives for the image in black and white gives.
    /// Where the binarizer fails, its error is handed on.
    pub open spec fn reads_image<B: Binarizer<S>, S: LuminanceSource>(
        &self,
        binarizer: B,
        hint: Option<Charset>,
        r: Result<DecoderResult, Error>,
    ) -> bool {
        exists|given: Result<BitMatrix, Error>| #[trigger]
            binarizer.makes_matrix(given) && match given {
                Ok(matrix) => matrix.wf() && self.reads(matrix, hint, r),
                Err(e) => fails_with(r, e),
            }
    }

    /// What the symbol in the image of `image` holds: the image is turned into black
    /// and white, and read as one that holds nothing but the symbol. Where the
    /// binarizer fails, its error is handed on.
    pub fn decode_bitmap<B: Binarizer<S>, S: LuminanceSource>(
        &self,
        image: &mut BinaryBitmap<B, S>,
        hints: &DecodeHints,
    ) -> (r: Result<DecoderResult, Error>)
        ensures
            self.reads_image(old(image).spec_binarizer(), hints.character_set, r),
    {
        let given = image.getBlackMatrix();
        let ghost asked = given;
        let r = match given {
            Ok(matrix) => self.decode_matrix(&matrix, hints),
            Err(e) => Err(e),
        };
        proof {
            assert(old(image).spec_binarizer().makes_matrix(asked));
        }
        r
    }

    /// The modules of the symbol in an image that holds nothing else: the symbol is
    /// neither turned nor skewed, and has white around it. An image without such a
    /// symbol is refused.
    pub fn extractPureBits(image: &BitMatrix) -> (r: Result<BitMatrix, Error>)
        requires
            image.wf(),
        ensures
            r matches Err(e) ==> e is NotFoundException,
            match pure_layout(*image) {
                None => r is Err,
                Some(layout) => r matches Ok(bits) && bits.wf() && bits.spec_width() == layout.size
                    && bits.spec_height() == layout.size && forall|x: int, y: int|
                    0 <= x < layout.size && 0 <= y < layout.size ==> #[trigger] bits.cell(x, y)
                        == image.cell(
                        sample_place(layout.left, x, layout.sevenths),
                        sample_place(layout.top, y, layout.sevenths),
                    ),
            },
    {
        let leftTopBlack = match image.getTopLeftOnBit() {
            Some(v) => v,
            None => {
                return Err(Error::NotFoundException("Error get left top black.".to_owned()));
            },
        };
        let rightBottomBlack = match image.getBottomRightOnBit() {
            Some(v) => v,
            None => {
                return Err(Error::NotFoundException("Error get right bottom black.".to_owned()));
            },
        };
        proof {
            image.lemma_dimensions();
            image.lemma_cell_in_matrix(leftTopBlack@[0] as int, leftTopBlack@[1] as int);
            image.lemma_cell_in_matrix(rightBottomBlack@[0] as int, rightBottomBlack@[1] as int);
            let first = choose|p: (int, int)| image.is_top_left(p.0, p.1);
            let last = choose|p: (int, int)| image.is_bottom_right(p.0, p.1);
            assert(image.is_top_left(
                (leftTopBlack@[0] as int, leftTopBlack@[1] as int).0,
                (leftTopBlack@[0] as int, leftTopBlack@[1] as int).1,
            ));
            assert(image.is_bottom_right(
                (rightBottomBlack@[0] as int, rightBottomBlack@[1] as int).0,
                (rightBottomBlack@[0] as int, rightBottomBlack@[1] as int).1,
            ));
            lemma_one_top_left(*image, first, (leftTopBlack@[0] as int, leftTopBlack@[1] as int));
            lemma_one_bottom_right(
                *image,
                last,
                (rightBottomBlack@[0] as int, rightBottomBlack@[1] as int),
            );
        }
        let moduleSize = match QRCodeReader::moduleSize(&leftTopBlack, image) {
            Ok(moduleSize) => moduleSize,
            Err(e) => {
                return Err(e);
            },
        };
        let mut top = leftTopBlack[1];
        let bottom = rightBottomBlack[1];
        let mut left = leftTopBlack[0];
        let mut right = rightBottomBlack[0];
        // The last black pixel lies below and to the right of the first.
        if left >= right || top >= bottom || moduleSize == 0 {
            return Err(Error::NotFoundException("Sanity check failed".to_owned()));
        }
        if bottom - top != right - left {
            // The last module of the symbol is white, and something else was found in
            // the last row. The symbol is a square, so that its height is its width.
            right = left + (bottom - top);
            if right >= image.get_width() {
                return Err(
                    Error::NotFoundException(
                        "Abort if that would not make sense -- off image".to_owned(),
                    ),
                );
            }
        }
        proof {
            lemma_rounded_span(right - left + 1, moduleSize as int);
            lemma_rounded_span(bottom - top + 1, moduleSize as int);
        }
        let sevenths: u64 = moduleSize as u64;
        let matrixWidth: u64 = (14 * ((right - left + 1) as u64) + sevenths) / (2 * sevenths);
        let matrixHeight: u64 = (14 * ((bottom - top + 1) as u64) + sevenths) / (2 * sevenths);
        if matrixWidth == 0 || matrixHeight == 0 {
            return Err(Error::NotFoundException("No modules".to_owned()));
        }
        if matrixHeight != matrixWidth {
            return Err(Error::NotFoundException("Only possibly decode square regions".to_owned()));
        }
        if matrixWidth > BitMatrix::MAX_DIMENSION as u64 {
            return Err(Error::NotFoundException("The symbol cannot be held".to_owned()));
        }
        // The samples are taken from the middle of the modules.
        let nudge: usize = moduleSize / 14;
        top += nudge;
        left += nudge;
        // The last sample must not lie beyond the symbol.
        let reach: u64 = (matrixWidth - 1) * sevenths / 7;
        if left as u64 + reach > right as u64 {
            let nudgedTooFarRight: u64 = left as u64 + reach - right as u64;
            if nudgedTooFarRight > nudge as u64 {
                return Err(Error::NotFoundException("Neither way fits".to_owned()));
            }
            left -= nudgedTooFarRight as usize;
        }
        if top as u64 + reach > bottom as u64 {
            let nudgedTooFarDown: u64 = top as u64 + reach - bottom as u64;
            if nudgedTooFarDown > nudge as u64 {
                return Err(Error::NotFoundException("Neither way fits".to_owned()));
            }
            top -= nudgedTooFarDown as usize;
        }
        let size: usize = matrixWidth as usize;
        // The modules are read off.
        let mut bits = match BitMatrix::new2(size, size) {
            Ok(bits) => bits,
            Err(e) => {
                return Err(Error::NotFoundException("The symbol cannot be held".to_owned()));
            },
        };
        let ghost layout = pure_layout(*image)->Some_0;
        proof {
            assert(pure_layout(*image) is Some);
            assert((size - 1) * sevenths / 7 == reach);
        }
        let mut y: usize = 0;
        while y < size
            invariant
                image.wf(),
                BitMatrix::fits(image.spec_width(), image.spec_height()),
                y <= size,
                1 <= size,
                sevenths == moduleSize,
                1 <= sevenths <= image.spec_width(),
                (size - 1) * sevenths / 7 == reach,
                left + reach <= right,
                top + reach <= bottom,
                right < image.spec_width(),
                bottom < image.spec_height(),
                layout.left == left,
                layout.top == top,
                layout.size == size,
                layout.sevenths == sevenths,
                bits.wf(),
                bits.spec_width() == size,
                bits.spec_height() == size,
                forall|cx: int, cy: int|
                    0 <= cx < size && 0 <= cy < size ==> #[trigger] bits.cell(cx, cy) == (cy < y
                        && image.cell(
                        sample_place(left as int, cx, sevenths as int),
                        sample_place(top as int, cy, sevenths as int),
                    )),
            decreases size - y,
        {
            proof {
                QRCodeReader::lemma_sample_within(y as int, size - 1, sevenths as int);
            }
            let iOffset: usize = top + ((y as u64) * sevenths / 7) as usize;
            let mut x: usize = 0;
            while x < size
                invariant
                    image.wf(),
                    BitMatrix::fits(image.spec_width(), image.spec_height()),
                    y < size,
                    x <= size,
                    sevenths == moduleSize,
                    1 <= sevenths <= image.spec_width(),
                    (size - 1) * sevenths / 7 == reach,
                    left + reach <= right,
                    right < image.spec_width(),
                    iOffset == sample_place(top as int, y as int, sevenths as int),
                    iOffset < image.spec_height(),
                    bits.wf(),
                    bits.spec_width() == size,
                    bits.spec_height() == size,
                    forall|cx: int, cy: int|
                        0 <= cx < size && 0 <= cy < size ==> #[trigger] bits.cell(cx, cy) == ((cy
                            < y || (cy == y && cx < x)) && image.cell(
                            sample_place(left as int, cx, sevenths as int),
                            sample_place(top as int, cy, sevenths as int),
                        )),
                decreases size - x,
            {
                proof {
                    QRCodeReader::lemma_sample_within(x as int, size - 1, sevenths as int);
                }
                if image.get(left + ((x as u64) * sevenths / 7) as usize, iOffset) {
                    bits.set(x, y);
                }
                x += 1;
            }
            y += 1;
        }
        Ok(bits)
    }

    /// A sample lies no further than the last one.
    proof fn lemma_sample_within(k: int, last: int, sevenths: int)
        requires
            0 <= k <= last,
            sevenths >= 1,
            last * sevenths <= 0x7FFF_FFFF * 16,
        ensures
            0 <= k * sevenths / 7 <= last * sevenths / 7,
            k * sevenths <= 0x7FFF_FFFF * 16,
            k * sevenths >= 0,
    {
        assert(0 <= k * sevenths <= last * sevenths) by (nonlinear_arith)
            requires
                0 <= k <= last,
                sevenths >= 1,
        ;
        vstd::arithmetic::div_mod::lemma_div_is_ordered(k * sevenths, last * sevenths, 7);
        vstd::arithmetic::div_mod::lemma_div_pos_is_pos(k * sevenths, 7);
    }

    /// Seven times the side of a module, in pixels: the number of pixels after which the
    /// walk down the diagonal from the first black pixel meets its fifth change of
    /// colour, which is where it leaves the position detection pattern of seven
    /// modules. A walk that leaves the image before is refused.
    pub fn moduleSize(leftTopBlack: &Vec<usize>, image: &BitMatrix) -> (r: Result<usize, Error>)
        requires
            image.wf(),
            leftTopBlack@.len() == 2,
            leftTopBlack@[0] < image.spec_width(),
            leftTopBlack@[1] < image.spec_height(),
        ensures
            match fifth_transition(
                *image,
                leftTopBlack@[0] as int,
                leftTopBlack@[1] as int,
                true,
                0,
            ) {
                Some(x) => r matches Ok(sevenths) && sevenths == x - leftTopBlack@[0] && sevenths
                    < image.spec_width(),
                None => r matches Err(e) && e is NotFoundException,
            },
    {
        let height = image.get_height();
        let width = image.get_width();
        let mut x = leftTopBlack[0];
        let mut y = leftTopBlack[1];
        let mut inBlack = true;
        let mut transitions: usize = 0;
        proof {
            image.lemma_dimensions();
        }
        while x < width && y < height
            invariant
                image.wf(),
                width == image.spec_width(),
                height == image.spec_height(),
                width <= BitMatrix::MAX_DIMENSION,
                height <= BitMatrix::MAX_DIMENSION,
                leftTopBlack@.len() == 2,
                leftTopBlack@[0] <= x <= width,
                y <= height,
                transitions < 5,
                fifth_transition(
                    *image,
                    leftTopBlack@[0] as int,
                    leftTopBlack@[1] as int,
                    true,
                    0,
                ) == fifth_transition(*image, x as int, y as int, inBlack, transitions as int),
            decreases width - x,
        {
            if inBlack != image.get(x, y) {
                transitions += 1;
                if transitions == 5 {
                    return Ok(x - leftTopBlack[0]);
                }
                inBlack = !inBlack;
            }
            x += 1;
            y += 1;
        }
        Err(Error::NotFoundException("Not found module size.".to_owned()))
    }
}

} // verus!
