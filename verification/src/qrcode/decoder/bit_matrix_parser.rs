#![allow(non_snake_case)]

use crate::common::bit_array::{bits_value, lemma_bits_value_bound, lemma_bits_value_push};
use crate::common::bit_matrix::BitMatrix;
use crate::error::Error;
use crate::qrcode::decoder::format_information::FormatInformation;
use crate::qrcode::decoder::version::{decoded_version, Version, Versions};
use crate::qrcode::encoder::byte_matrix::ByteMatrix;
use crate::qrcode::encoder::encoder_blocks::bits_bytes;
use crate::qrcode::encoder::mask_util::{data_mask_bit, MaskUtil};
use crate::qrcode::encoder::matrix_util::{
    cell_at_turn, function_patterns, right_column, MatrixUtil,
};
use vstd::arithmetic::power2::{lemma2_to64, lemma_pow2_strictly_increases};
use vstd::prelude::*;

verus! {

/// Reads what a symbol says of itself from its modules.
pub struct BitMatrixParser<'a> {
    bitMatrix: &'a BitMatrix,
    parsedFormatInfo: Option<FormatInformation>,
    mirror: bool,
}

/// The place of the `k`-th bit, counted from the highest, of the first copy of the
/// format information: along row 8 to the upper left position detection pattern and up
/// column 8 from it, without the cells of the timing patterns.
pub open spec fn first_copy_place(k: int) -> (int, int) {
    if k < 6 {
        (k, 8)
    } else if k == 6 {
        (7, 8)
    } else if k == 7 {
        (8, 8)
    } else if k == 8 {
        (8, 7)
    } else {
        (8, 14 - k)
    }
}

/// The place of the `k`-th bit, counted from the highest, of the second copy of the
/// format information in a symbol of dimension `dimension`: up column 8 from the lower
/// edge, then along row 8 to the right edge.
pub open spec fn second_copy_place(k: int, dimension: int) -> (int, int) {
    if k < 7 {
        (8, dimension - 1 - k)
    } else {
        (dimension - 15 + k, 8)
    }
}

/// The module at `(i, j)`, or at `(j, i)` where the symbol is read mirrored.
pub open spec fn module_at(matrix: BitMatrix, mirror: bool, place: (int, int)) -> bool {
    if mirror {
        matrix.cell(place.1, place.0)
    } else {
        matrix.cell(place.0, place.1)
    }
}

/// The first `n` bits of the first copy of the format information.
pub open spec fn first_copy_bits(matrix: BitMatrix, mirror: bool, n: nat) -> Seq<bool> {
    Seq::new(n, |k: int| module_at(matrix, mirror, first_copy_place(k)))
}

/// The first `n` bits of the second copy of the format information.
pub open spec fn second_copy_bits(matrix: BitMatrix, mirror: bool, n: nat) -> Seq<bool> {
    Seq::new(n, |k: int| module_at(matrix, mirror, second_copy_place(k, matrix.spec_height())))
}

/// The place of the `k`-th bit, counted from the highest, of the copy of the version
/// information beside the upper right position detection pattern.
pub open spec fn upper_version_place(k: int, dimension: int) -> (int, int) {
    (dimension - 9 - k % 3, 5 - k / 3)
}

/// The place of the `k`-th bit, counted from the highest, of the copy of the version
/// information above the lower left position detection pattern.
pub open spec fn lower_version_place(k: int, dimension: int) -> (int, int) {
    (5 - k / 3, dimension - 9 - k % 3)
}

/// The first `n` bits of one copy of the version information: of the upper copy, or of
/// the lower one.
pub open spec fn version_copy_bits(matrix: BitMatrix, mirror: bool, upper: bool, n: nat) -> Seq<
    bool,
> {
    Seq::new(
        n,
        |k: int|
            module_at(
                matrix,
                mirror,
                if upper {
                    upper_version_place(k, matrix.spec_height())
                } else {
                    lower_version_place(k, matrix.spec_height())
                },
            ),
    )
}

/// The bits that the first `r` cells of the pair of columns numbered `p` give: each cell
/// that `g` leaves empty gives its module, turned where the mask turns the cell.
pub open spec fn read_in_pair(
    g: Seq<Seq<i8>>,
    matrix: BitMatrix,
    mirror: bool,
    mask_pattern: int,
    p: int,
    r: nat,
) -> Seq<bool>
    decreases r,
{
    if r == 0 {
        Seq::empty()
    } else {
        let (x, y) = cell_at_turn(matrix.spec_height(), p, r - 1);
        let before = read_in_pair(g, matrix, mirror, mask_pattern, p, (r - 1) as nat);
        if g[y][x] == -1 {
            before.push(module_at(matrix, mirror, (x, y)) != data_mask_bit(mask_pattern, x, y))
        } else {
            before
        }
    }
}

/// The bits that the first `p` pairs of columns give.
pub open spec fn read_in_pairs(
    g: Seq<Seq<i8>>,
    matrix: BitMatrix,
    mirror: bool,
    mask_pattern: int,
    p: nat,
) -> Seq<bool>
    decreases p,
{
    if p == 0 {
        Seq::empty()
    } else {
        read_in_pairs(g, matrix, mirror, mask_pattern, (p - 1) as nat) + read_in_pair(
            g,
            matrix,
            mirror,
            mask_pattern,
            p - 1,
            (2 * matrix.spec_height()) as nat,
        )
    }
}

/// The bits of the data of a symbol, in the order in which they were laid into it: the
/// walk over the pairs of columns takes a bit from each cell that `g` leaves empty.
pub open spec fn read_bits(g: Seq<Seq<i8>>, matrix: BitMatrix, mirror: bool, mask_pattern: int) -> Seq<
    bool,
> {
    read_in_pairs(g, matrix, mirror, mask_pattern, ((matrix.spec_height() - 1) / 2) as nat)
}

impl<'a> BitMatrixParser<'a> {
    pub closed spec fn spec_matrix(&self) -> BitMatrix {
        *self.bitMatrix
    }

    pub closed spec fn spec_mirror(&self) -> bool {
        self.mirror
    }

    pub closed spec fn spec_parsed(&self) -> Option<FormatInformation> {
        self.parsedFormatInfo
    }

    /// Whether `dimension` is the dimension of a symbol: 21 and more, and one more than a
    /// multiple of four.
    pub open spec fn is_dimension(dimension: int) -> bool {
        dimension >= 21 && dimension % 4 == 1
    }

    /// The matrix is a square of the dimension of a symbol.
    pub open spec fn wf(&self) -> bool {
        &&& self.spec_matrix().wf()
        &&& self.spec_matrix().spec_width() == self.spec_matrix().spec_height()
        &&& BitMatrixParser::is_dimension(self.spec_matrix().spec_height())
    }

    /// The parser of the modules of a symbol. A matrix that is no square of the
    /// dimension of a symbol is refused.
    pub fn new(bitMatrix: &'a BitMatrix) -> (r: Result<BitMatrixParser<'a>, Error>)
        requires
            bitMatrix.wf(),
        ensures
            r is Ok <==> (bitMatrix.spec_width() == bitMatrix.spec_height()
                && BitMatrixParser::is_dimension(bitMatrix.spec_height())),
            r matches Ok(p) ==> p.wf() && p.spec_matrix() == *bitMatrix && !p.spec_mirror()
                && p.spec_parsed() is None,
            r matches Err(e) ==> e is FormatException,
    {
        let dimension = bitMatrix.get_height();
        if dimension < 21 || dimension % 4 != 1 || bitMatrix.get_width() != dimension {
            return Err(Error::FormatException("Not the dimension of a symbol".to_owned()));
        }
        Ok(BitMatrixParser { bitMatrix, parsedFormatInfo: None, mirror: false })
    }

    /// Whether the symbol is read mirrored from now on.
    pub fn set_mirror(&mut self, mirror: bool)
        ensures
            final(self).spec_matrix() == old(self).spec_matrix(),
            final(self).spec_mirror() == mirror,
            final(self).spec_parsed() is None,
    {
        self.parsedFormatInfo = None;
        self.mirror = mirror;
    }

    /// The five bits of format information that the modules give, or `None` where both
    /// copies are too far from every code.
    pub open spec fn spec_format(matrix: BitMatrix, mirror: bool) -> Option<u32> {
        FormatInformation::spec_decode(
            bits_value(first_copy_bits(matrix, mirror, 15)) as u32,
            bits_value(second_copy_bits(matrix, mirror, 15)) as u32,
        )
    }

    /// The format information of the symbol, read from its two copies. Where neither
    /// copy can be made out, the symbol is refused.
    pub fn readFormatInformation(&mut self) -> (r: Result<FormatInformation, Error>)
        requires
            old(self).wf(),
            old(self).spec_parsed() is None,
        ensures
            final(self).spec_matrix() == old(self).spec_matrix(),
            final(self).spec_mirror() == old(self).spec_mirror(),
            match BitMatrixParser::spec_format(old(self).spec_matrix(), old(self).spec_mirror()) {
                Some(data) => r matches Ok(f) && f.spec_level().spec_bits() == (data >> 3) & 0x03
                    && f.spec_data_mask() == data & 0x07 && final(self).spec_parsed() == Some(f),
                None => r matches Err(e) && e is FormatException,
            },
    {
        let ghost matrix = self.spec_matrix();
        let ghost mirror = self.mirror;
        proof {
            self.bitMatrix.lemma_dimensions();
            assert(first_copy_bits(matrix, mirror, 0) =~= Seq::<bool>::empty());
            assert(second_copy_bits(matrix, mirror, 0) =~= Seq::<bool>::empty());
        }
        // The copy at the upper left position detection pattern.
        let mut formatInfoBits1: u32 = 0;
        let mut k: usize = 0;
        while k < 15
            invariant
                k <= 15,
                self.wf(),
                self.spec_matrix() == matrix,
                self.mirror == mirror,
                self.parsedFormatInfo is None,
                formatInfoBits1 == bits_value(first_copy_bits(matrix, mirror, k as nat)),
            decreases 15 - k,
        {
            let (i, j): (usize, usize) = if k < 6 {
                (k, 8)
            } else if k == 6 {
                (7, 8)
            } else if k == 7 {
                (8, 8)
            } else if k == 8 {
                (8, 7)
            } else {
                (8, 14 - k)
            };
            proof {
                let read = first_copy_bits(matrix, mirror, k as nat);
                lemma_bits_value_bound(read);
                lemma_pow2_strictly_increases(k as nat, 15);
                lemma2_to64();
                lemma_bits_value_push(read, module_at(matrix, mirror, first_copy_place(k as int)));
                assert(read.push(module_at(matrix, mirror, first_copy_place(k as int)))
                    =~= first_copy_bits(matrix, mirror, (k + 1) as nat));
            }
            formatInfoBits1 = self.copyBit(i, j, formatInfoBits1);
            k += 1;
        }
        // The copy that is shared between the other two patterns.
        let dimension = self.bitMatrix.get_height();
        let mut formatInfoBits2: u32 = 0;
        let mut k: usize = 0;
        while k < 15
            invariant
                k <= 15,
                self.wf(),
                self.spec_matrix() == matrix,
                self.mirror == mirror,
                self.parsedFormatInfo is None,
                dimension == matrix.spec_height(),
                formatInfoBits2 == bits_value(second_copy_bits(matrix, mirror, k as nat)),
            decreases 15 - k,
        {
            let (i, j): (usize, usize) = if k < 7 {
                (8, dimension - 1 - k)
            } else {
                (dimension - 15 + k, 8)
            };
            proof {
                let read = second_copy_bits(matrix, mirror, k as nat);
                lemma_bits_value_bound(read);
                lemma_pow2_strictly_increases(k as nat, 15);
                lemma2_to64();
                lemma_bits_value_push(
                    read,
                    module_at(matrix, mirror, second_copy_place(k as int, dimension as int)),
                );
                assert(read.push(
                    module_at(matrix, mirror, second_copy_place(k as int, dimension as int)),
                ) =~= second_copy_bits(matrix, mirror, (k + 1) as nat));
            }
            formatInfoBits2 = self.copyBit(i, j, formatInfoBits2);
            k += 1;
        }
        let decoded = match FormatInformation::decodeFormatInformation(
            formatInfoBits1,
            formatInfoBits2,
        ) {
            Ok(decoded) => decoded,
            Err(e) => {
                return Err(e);
            },
        };
        self.parsedFormatInfo = decoded;
        match decoded {
            Some(formatInfo) => Ok(formatInfo),
            None => Err(Error::FormatException("No format information".to_owned())),
        }
    }

    /// The number of the version that the modules give, or `None` where they give none:
    /// up to version 6 the dimension alone decides; from version 7 on one of the two
    /// copies of the version information must stand for the version of the dimension.
    pub open spec fn spec_version(matrix: BitMatrix, mirror: bool) -> Option<int> {
        match Versions::number_for_dimension(matrix.spec_height()) {
            None => None,
            Some(n) => if n <= 6 || decoded_version(
                bits_value(version_copy_bits(matrix, mirror, true, 18)) as u32,
            ) == Some(n) || decoded_version(
                bits_value(version_copy_bits(matrix, mirror, false, 18)) as u32,
            ) == Some(n) {
                Some(n)
            } else {
                None
            },
        }
    }

    /// The eighteen bits of one copy of the version information.
    fn read_version_bits(&self, upper: bool) -> (bits: u32)
        requires
            self.wf(),
        ensures
            bits == bits_value(
                version_copy_bits(self.spec_matrix(), self.spec_mirror(), upper, 18),
            ),
    {
        let ghost matrix = self.spec_matrix();
        let ghost mirror = self.mirror;
        proof {
            self.bitMatrix.lemma_dimensions();
            assert(version_copy_bits(matrix, mirror, upper, 0) =~= Seq::<bool>::empty());
        }
        let dimension = self.bitMatrix.get_height();
        let mut versionBits: u32 = 0;
        let mut k: usize = 0;
        while k < 18
            invariant
                k <= 18,
                self.wf(),
                self.spec_matrix() == matrix,
                self.mirror == mirror,
                dimension == matrix.spec_height(),
                versionBits == bits_value(version_copy_bits(matrix, mirror, upper, k as nat)),
            decreases 18 - k,
        {
            let (i, j): (usize, usize) = if upper {
                (dimension - 9 - k % 3, 5 - k / 3)
            } else {
                (5 - k / 3, dimension - 9 - k % 3)
            };
            proof {
                let read = version_copy_bits(matrix, mirror, upper, k as nat);
                let place = if upper {
                    upper_version_place(k as int, dimension as int)
                } else {
                    lower_version_place(k as int, dimension as int)
                };
                lemma_bits_value_bound(read);
                lemma_pow2_strictly_increases(k as nat, 18);
                lemma2_to64();
                lemma_bits_value_push(read, module_at(matrix, mirror, place));
                assert(read.push(module_at(matrix, mirror, place)) =~= version_copy_bits(
                    matrix,
                    mirror,
                    upper,
                    (k + 1) as nat,
                ));
            }
            versionBits = self.copyBit(i, j, versionBits);
            k += 1;
        }
        versionBits
    }

    /// The version of the symbol. Up to version 6 it follows from the dimension; from
    /// version 7 on it is read from the two copies of the version information, and must
    /// be the version of the dimension. A symbol of which neither holds is refused.
    pub fn readVersion<'v>(&self, versions: &'v Versions) -> (r: Result<&'v Version, Error>)
        requires
            self.wf(),
            versions.wf(),
        ensures
            match BitMatrixParser::spec_version(self.spec_matrix(), self.spec_mirror()) {
                Some(n) => r matches Ok(v) && v.wf() && v.spec_number() == n && *v
                    == versions.table()[n - 1],
                None => r matches Err(e) && e is FormatException,
            },
    {
        let dimension = self.bitMatrix.get_height();
        let provisional = match versions.get_provisional_version_for_dimension(dimension) {
            Ok(v) => v,
            Err(e) => {
                return Err(e);
            },
        };
        if provisional.get_version_number() <= 6 {
            return Ok(provisional);
        }
        // The copy beside the upper right pattern, three modules wide and six high.
        let upper = self.read_version_bits(true);
        match versions.decode_version_information(upper) {
            Some(v) => {
                if v.get_version_number() == provisional.get_version_number() {
                    return Ok(v);
                }
            },
            None => {},
        }
        // The copy above the lower left pattern, six modules wide and three high.
        let lower = self.read_version_bits(false);
        match versions.decode_version_information(lower) {
            Some(v) => {
                if v.get_version_number() == provisional.get_version_number() {
                    return Ok(v);
                }
            },
            None => {},
        }
        Err(Error::FormatException("No version information".to_owned()))
    }

    /// The codewords of a symbol of the given version whose format information gives the
    /// given level and mask: the bits of the data, eight for each codeword; none where
    /// the mask is none of 0 to 7 or the symbol holds too few bits.
    pub open spec fn spec_codewords(
        matrix: BitMatrix,
        mirror: bool,
        version: Version,
        level_bits: u32,
        mask: u32,
    ) -> Option<Seq<u8>> {
        if mask >= 8 {
            None
        } else {
            let g = function_patterns(
                version.spec_number(),
                version.spec_centers(),
                level_bits,
                mask as int,
            );
            let bits = read_bits(g, matrix, mirror, mask as int);
            if bits.len() >= 8 * version.spec_total_codewords() {
                Some(bits_bytes(bits.subrange(0, 8 * version.spec_total_codewords())))
            } else {
                None
            }
        }
    }

    /// The bits of the data, read in the order in which they were laid into the symbol.
    fn read_data_bits(&self, functions: &ByteMatrix, mask_pattern: i32) -> (bits: Vec<bool>)
        requires
            self.wf(),
            self.spec_matrix().spec_height() <= 0x1000,
            functions.wf(),
            functions.spec_width() == self.spec_matrix().spec_height(),
            functions.spec_height() == self.spec_matrix().spec_height(),
            0 <= mask_pattern < 8,
        ensures
            bits@ == read_bits(
                functions@,
                self.spec_matrix(),
                self.spec_mirror(),
                mask_pattern as int,
            ),
    {
        let ghost matrix = self.spec_matrix();
        let ghost mirror = self.mirror;
        let ghost g = functions@;
        let ghost mask = mask_pattern as int;
        let dim = self.bitMatrix.get_height();
        proof {
            self.bitMatrix.lemma_dimensions();
            functions.lemma_view();
        }
        let mut bits: Vec<bool> = Vec::new();
        let mut upwards = true;
        let mut x: usize = dim - 1;
        let ghost mut p: int = 0;
        while x > 0
            invariant
                self.wf(),
                self.spec_matrix() == matrix,
                self.mirror == mirror,
                functions.wf(),
                functions@ == g,
                functions.spec_width() == dim,
                functions.spec_height() == dim,
                dim == matrix.spec_height(),
                dim == matrix.spec_width(),
                dim % 2 == 1,
                21 <= dim <= 0x1000,
                0 <= mask_pattern < 8,
                mask == mask_pattern,
                0 <= p <= (dim - 1) / 2,
                p < (dim - 1) / 2 ==> (x == dim - 1 - 2 * p && x >= 6) || (x == dim - 2 - 2 * p
                    && x < 6),
                p < (dim - 1) / 2 ==> x >= 1,
                p == (dim - 1) / 2 ==> x == 0,
                upwards == (p % 2 == 0),
                bits@ == read_in_pairs(g, matrix, mirror, mask, p as nat),
            decreases x,
        {
            // The vertical timing pattern holds no data.
            if x == 6 {
                x -= 1;
            }
            assert(x == right_column(dim as int, p));
            let ghost before = bits@;
            let mut step: usize = 0;
            while step < dim
                invariant
                    self.wf(),
                    self.spec_matrix() == matrix,
                    self.mirror == mirror,
                    functions.wf(),
                    functions@ == g,
                    functions.spec_width() == dim,
                    functions.spec_height() == dim,
                    dim == matrix.spec_height(),
                    dim == matrix.spec_width(),
                    21 <= dim <= 0x1000,
                    0 <= mask_pattern < 8,
                    mask == mask_pattern,
                    0 <= p < (dim - 1) / 2,
                    x == right_column(dim as int, p),
                    1 <= x < dim,
                    upwards == (p % 2 == 0),
                    step <= dim,
                    bits@ == before + read_in_pair(g, matrix, mirror, mask, p, (2 * step) as nat),
                decreases dim - step,
            {
                let y: usize = if upwards {
                    dim - 1 - step
                } else {
                    step
                };
                let mut i: usize = 0;
                while i < 2
                    invariant
                        self.wf(),
                        self.spec_matrix() == matrix,
                        self.mirror == mirror,
                        functions.wf(),
                        functions@ == g,
                        functions.spec_width() == dim,
                        functions.spec_height() == dim,
                        dim == matrix.spec_height(),
                        dim == matrix.spec_width(),
                        21 <= dim <= 0x1000,
                        0 <= mask_pattern < 8,
                        mask == mask_pattern,
                        0 <= p < (dim - 1) / 2,
                        x == right_column(dim as int, p),
                        1 <= x < dim,
                        upwards == (p % 2 == 0),
                        step < dim,
                        y == if upwards {
                            dim - 1 - step
                        } else {
                            step as int
                        },
                        i <= 2,
                        bits@ == before + read_in_pair(
                            g,
                            matrix,
                            mirror,
                            mask,
                            p,
                            (2 * step + i) as nat,
                        ),
                    decreases 2 - i,
                {
                    let xx: usize = x - i;
                    let ghost turn = 2 * step + i;
                    let ghost read = read_in_pair(g, matrix, mirror, mask, p, turn as nat);
                    proof {
                        functions.lemma_view();
                        assert(cell_at_turn(dim as int, p, turn) == (xx as int, y as int));
                        assert(functions.at(xx as int, y as int) == g[y as int][xx as int]);
                    }
                    if MatrixUtil::is_empty(functions.get(xx, y)) {
                        let module = if self.mirror {
                            self.bitMatrix.get(y, xx)
                        } else {
                            self.bitMatrix.get(xx, y)
                        };
                        let bit = module != MaskUtil::get_data_mask_bit(mask_pattern, xx, y);
                        bits.push(bit);
                        proof {
                            assert(bits@ =~= before + read.push(bit));
                        }
                    }
                    i += 1;
                }
                step += 1;
            }
            upwards = !upwards;
            proof {
                p = p + 1;
            }
            // On to the next pair on the left.
            if x >= 2 {
                x -= 2;
            } else {
                x = 0;
            }
        }
        bits
    }

    /// The codewords of the symbol, which has the given version and format information:
    /// the bits of its data cells, with the mask taken off, eight for each codeword. A
    /// symbol that holds fewer codewords than its version has is refused.
    pub fn readCodewords(&self, version: &Version, format: &FormatInformation) -> (r: Result<
        Vec<u8>,
        Error,
    >)
        requires
            self.wf(),
            version.wf(),
            version.spec_dimension() == self.spec_matrix().spec_height(),
        ensures
            match BitMatrixParser::spec_codewords(
                self.spec_matrix(),
                self.spec_mirror(),
                *version,
                format.spec_level().spec_bits(),
                format.spec_data_mask(),
            ) {
                Some(codewords) => r matches Ok(c) && c@ == codewords,
                None => r matches Err(e) && e is FormatException,
            },
    {
        let mask_value = format.getDataMask();
        if mask_value >= 8 {
            return Err(Error::FormatException("No such mask".to_owned()));
        }
        let mask_pattern: i32 = mask_value as i32;
        let dimension = self.bitMatrix.get_height();
        let mut functions = ByteMatrix::new(dimension, dimension);
        let level = format.getErrorCorrectionLevel();
        MatrixUtil::build_function_patterns(&level, version, mask_pattern, &mut functions);
        let bits = self.read_data_bits(&functions, mask_pattern);
        let total = version.get_total_codewords();
        if bits.len() < 8 * total {
            return Err(Error::FormatException("Too few codewords".to_owned()));
        }
        let ghost taken = bits@.subrange(0, 8 * total);
        let mut codewords: Vec<u8> = Vec::new();
        let mut n: usize = 0;
        while n < total
            invariant
                n <= total,
                total <= 3706,
                bits@.len() >= 8 * total,
                taken == bits@.subrange(0, 8 * total),
                codewords@.len() == n,
                forall|k: int| 0 <= k < n ==> #[trigger] codewords@[k] == bits_bytes(taken)[k],
            decreases total - n,
        {
            let mut value: u32 = 0;
            let mut j: usize = 0;
            proof {
                assert(taken.subrange(8 * n, 8 * n) =~= Seq::<bool>::empty());
            }
            while j < 8
                invariant
                    j <= 8,
                    n < total,
                    total <= 3706,
                    bits@.len() >= 8 * total,
                    taken == bits@.subrange(0, 8 * total),
                    value == bits_value(taken.subrange(8 * n, 8 * n + j)),
                decreases 8 - j,
            {
                let bit = bits[8 * n + j];
                proof {
                    let read = taken.subrange(8 * n, 8 * n + j);
                    lemma_bits_value_bound(read);
                    lemma_pow2_strictly_increases(j as nat, 8);
                    lemma2_to64();
                    lemma_bits_value_push(read, bit);
                    assert(read.push(bit) =~= taken.subrange(8 * n, 8 * n + j + 1));
                }
                value = 2 * value + if bit {
                    1
                } else {
                    0
                };
                j += 1;
            }
            proof {
                lemma_bits_value_bound(taken.subrange(8 * n, 8 * n + 8));
                lemma2_to64();
            }
            codewords.push(value as u8);
            n += 1;
        }
        proof {
            assert(codewords@ =~= bits_bytes(taken));
        }
        Ok(codewords)
    }

    /// `versionBits` with the module at `(i, j)` appended as its lowest bit; the module
    /// at `(j, i)` where the symbol is read mirrored.
    pub fn copyBit(&self, i: usize, j: usize, versionBits: u32) -> (r: u32)
        requires
            self.wf(),
            i < self.spec_matrix().spec_width(),
            j < self.spec_matrix().spec_height(),
            versionBits < 0x8000_0000,
        ensures
            r == 2 * versionBits + if module_at(
                self.spec_matrix(),
                self.spec_mirror(),
                (i as int, j as int),
            ) {
                1int
            } else {
                0int
            },
    {
        let bit = if self.mirror {
            self.bitMatrix.get(j, i)
        } else {
            self.bitMatrix.get(i, j)
        };
        if bit {
            2 * versionBits + 1
        } else {
            2 * versionBits
        }
    }
}

} // verus!
