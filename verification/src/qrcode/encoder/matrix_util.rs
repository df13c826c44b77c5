use crate::common::bit_array::{low_bits, BitArray};
use crate::error::Error;
use crate::qrcode::decoder::error_correction_level::ErrorCorrectionLevel;
use crate::qrcode::decoder::version::Version;
use crate::qrcode::encoder::byte_matrix::ByteMatrix;
use crate::qrcode::encoder::mask_util::{data_mask_bit, MaskUtil};
use crate::qrcode::encoder::qrcode::QRCode;
use vstd::arithmetic::power2::{lemma2_to64, lemma_pow2_unfold, pow2};
use vstd::prelude::*;

verus! {

/// Builds the modules of a symbol: the fixed patterns, the type and version information,
/// and the data under a mask.
pub struct MatrixUtil;

/// `dim` rows of `dim` cells, all of them empty.
pub open spec fn blank(dim: nat) -> Seq<Seq<i8>> {
    Seq::new(dim, |y: int| Seq::new(dim, |x: int| -1i8))
}

/// Whether `g` has `dim` rows of `dim` cells.
pub open spec fn square(g: Seq<Seq<i8>>, dim: int) -> bool {
    &&& g.len() == dim
    &&& forall|y: int| 0 <= y < dim ==> (#[trigger] g[y]).len() == dim
}

/// `g` with the cells for which `f` gives a value replaced by that value.
pub open spec fn overlay(g: Seq<Seq<i8>>, f: spec_fn(int, int) -> Option<i8>) -> Seq<Seq<i8>> {
    Seq::new(
        g.len(),
        |y: int|
            Seq::new(
                g[y].len(),
                |x: int|
                    match f(x, y) {
                        Some(v) => v,
                        None => g[y][x],
                    },
            ),
    )
}

/// The kinds of block that are laid into a symbol.
#[derive(Clone, Copy, PartialEq, Eq, Structural)]
pub enum BlockKind {
    /// White cells.
    White,
    /// One black cell.
    Dark,
    /// The seven by seven position detection pattern.
    Finder,
    /// The five by five position adjustment pattern.
    Alignment,
}

/// The cell at column `dx` of row `dy` of a position detection pattern: a black border, a
/// white ring inside it, and a black core of three by three cells.
pub open spec fn finder_value(dx: int, dy: int) -> i8 {
    if dx == 0 || dx == 6 || dy == 0 || dy == 6 {
        1
    } else if 2 <= dx <= 4 && 2 <= dy <= 4 {
        1
    } else {
        0
    }
}

/// The cell at column `dx` of row `dy` of a position adjustment pattern: a black border
/// and a black center.
pub open spec fn alignment_value(dx: int, dy: int) -> i8 {
    if dx == 0 || dx == 4 || dy == 0 || dy == 4 {
        1
    } else if dx == 2 && dy == 2 {
        1
    } else {
        0
    }
}

/// The cell at column `dx` of row `dy` of a block of the given kind.
pub open spec fn block_value(kind: BlockKind, dx: int, dy: int) -> i8 {
    match kind {
        BlockKind::White => 0,
        BlockKind::Dark => 1,
        BlockKind::Finder => finder_value(dx, dy),
        BlockKind::Alignment => alignment_value(dx, dy),
    }
}

/// A block of the given kind, `w` cells wide and `h` high, with its top left cell at
/// `(xs, ys)`.
pub open spec fn block_at(kind: BlockKind, xs: int, ys: int, w: int, h: int) -> spec_fn(
    int,
    int,
) -> Option<i8> {
    |x: int, y: int|
        if xs <= x < xs + w && ys <= y < ys + h {
            Some(block_value(kind, x - xs, y - ys))
        } else {
            None
        }
}

/// The three position detection patterns and, around them, their separators.
pub open spec fn finders_and_separators(g: Seq<Seq<i8>>, dim: int) -> Seq<Seq<i8>> {
    let g1 = overlay(g, block_at(BlockKind::Finder, 0, 0, 7, 7));
    let g2 = overlay(g1, block_at(BlockKind::Finder, dim - 7, 0, 7, 7));
    let g3 = overlay(g2, block_at(BlockKind::Finder, 0, dim - 7, 7, 7));
    let g4 = overlay(g3, block_at(BlockKind::White, 0, 7, 8, 1));
    let g5 = overlay(g4, block_at(BlockKind::White, dim - 8, 7, 8, 1));
    let g6 = overlay(g5, block_at(BlockKind::White, 0, dim - 8, 8, 1));
    let g7 = overlay(g6, block_at(BlockKind::White, 7, 0, 1, 7));
    let g8 = overlay(g7, block_at(BlockKind::White, dim - 8, 0, 1, 7));
    overlay(g8, block_at(BlockKind::White, 7, dim - 7, 1, 7))
}

/// The dark module beside the lower left position detection pattern.
pub open spec fn dark_dot(g: Seq<Seq<i8>>, dim: int) -> Seq<Seq<i8>> {
    overlay(g, block_at(BlockKind::Dark, 8, dim - 8, 1, 1))
}

/// A position adjustment pattern around `(cx, cy)`, laid where that cell is empty.
pub open spec fn align_one(g: Seq<Seq<i8>>, cx: int, cy: int) -> Seq<Seq<i8>> {
    if g[cy][cx] == -1 {
        overlay(g, block_at(BlockKind::Alignment, cx - 2, cy - 2, 5, 5))
    } else {
        g
    }
}

/// The position adjustment patterns of the row of centers at `cy`, for the first `kx`
/// centers.
pub open spec fn align_row(g: Seq<Seq<i8>>, centers: Seq<usize>, cy: int, kx: nat) -> Seq<Seq<i8>>
    decreases kx,
{
    if kx == 0 {
        g
    } else {
        align_one(align_row(g, centers, cy, (kx - 1) as nat), centers[kx - 1] as int, cy)
    }
}

/// The position adjustment patterns of the first `ky` rows of centers.
pub open spec fn align_rows(g: Seq<Seq<i8>>, centers: Seq<usize>, ky: nat) -> Seq<Seq<i8>>
    decreases ky,
{
    if ky == 0 {
        g
    } else {
        align_row(
            align_rows(g, centers, (ky - 1) as nat),
            centers,
            centers[ky - 1] as int,
            centers.len(),
        )
    }
}

/// The position adjustment patterns of a version, which has them from number 2 on.
pub open spec fn aligned(g: Seq<Seq<i8>>, number: int, centers: Seq<usize>) -> Seq<Seq<i8>> {
    if number < 2 {
        g
    } else {
        align_rows(g, centers, centers.len())
    }
}

/// The timing patterns: along row 6 and column 6, between the position detection
/// patterns, black and white cells in turn, laid where a cell is empty.
pub open spec fn timing_at(g: Seq<Seq<i8>>, dim: int) -> spec_fn(int, int) -> Option<i8> {
    |x: int, y: int|
        if y == 6 && 8 <= x < dim - 8 && g[6][x] == -1 {
            Some(((x + 1) % 2) as i8)
        } else if x == 6 && 8 <= y < dim - 8 && g[y][6] == -1 {
            Some(((y + 1) % 2) as i8)
        } else {
            None
        }
}

/// The patterns that a symbol of a version has whatever it holds.
pub open spec fn basic_patterns(number: int, centers: Seq<usize>) -> Seq<Seq<i8>> {
    let dim = 4 * number + 17;
    let g = aligned(dark_dot(finders_and_separators(blank(dim as nat), dim), dim), number, centers);
    overlay(g, timing_at(g, dim))
}

/// The number of binary digits of `v`.
pub open spec fn msb_set(v: u32) -> nat
    decreases v,
{
    if v == 0 {
        0
    } else {
        1 + msb_set(v / 2)
    }
}

/// `value` reduced by `poly`, both polynomials with bits for coefficients: as long as
/// `value` has no fewer digits than `poly`, `poly` is shifted under its highest bit and
/// taken away. Every step lowers the highest bit, so that 32 steps are enough.
pub open spec fn bch_reduce(value: u32, poly: u32, steps: nat) -> u32
    decreases steps,
{
    if steps == 0 || msb_set(value) < msb_set(poly) {
        value
    } else {
        bch_reduce(
            value ^ (poly << ((msb_set(value) - msb_set(poly)) as u32)),
            poly,
            (steps - 1) as nat,
        )
    }
}

/// The check bits of `value` under the generator `poly`: the remainder of `value`, shifted
/// up by the degree of `poly`, on division by `poly`.
pub open spec fn bch_code(value: u32, poly: u32) -> u32 {
    bch_reduce(value << ((msb_set(poly) - 1) as u32), poly, 32)
}

/// The fifteen bits of type information, highest first: two bits for the level and three
/// for the mask, their ten check bits, and over all of them the fixed mask 0x5412.
pub open spec fn type_info_bits(level_bits: u32, mask_pattern: int) -> Seq<bool> {
    let type_info: u32 = (level_bits << 3) | (mask_pattern as u32);
    let plain = low_bits(type_info, 5) + low_bits(bch_code(type_info, 0x537), 10);
    Seq::new(15, |i: int| plain[i] != low_bits(0x5412, 15)[i])
}

/// The eighteen bits of version information, highest first: six bits for the number and
/// their twelve check bits.
pub open spec fn version_info_bits(number: int) -> Seq<bool> {
    low_bits(number as u32, 6) + low_bits(bch_code(number as u32, 0x1f25), 12)
}

/// 1 for `true`, 0 for `false`.
pub open spec fn bit_value(b: bool) -> i8 {
    if b {
        1
    } else {
        0
    }
}

/// The place of the `i`-th bit of type information, counted from the lowest, in its
/// first copy, at the upper left position detection pattern.
pub open spec fn type_info_place(i: int) -> (int, int) {
    if i < 6 {
        (8, i)
    } else if i == 6 {
        (8, 7)
    } else if i == 7 {
        (8, 8)
    } else if i == 8 {
        (7, 8)
    } else {
        (14 - i, 8)
    }
}

/// The place of the `i`-th bit of type information in its second copy: along row 8 from
/// the right edge for the first eight, down column 8 to the lower edge for the others.
pub open spec fn type_info_second_place(i: int, dim: int) -> (int, int) {
    if i < 8 {
        (dim - i - 1, 8)
    } else {
        (8, dim - 7 + (i - 8))
    }
}

/// The first `n` bits of type information at their two places each.
pub open spec fn type_info_at(bits: Seq<bool>, dim: int, n: int) -> spec_fn(int, int) -> Option<i8> {
    |x: int, y: int|
        if exists|i: int| 0 <= i < n && TypePlace::holds(i, dim, x, y) {
            let i = choose|i: int| 0 <= i < n && TypePlace::holds(i, dim, x, y);
            Some(bit_value(bits[14 - i]))
        } else {
            None
        }
}

/// The places of the type information.
pub struct TypePlace;

impl TypePlace {
    /// Whether `(x, y)` is one of the two places of the `i`-th bit of type information.
    pub open spec fn holds(i: int, dim: int, x: int, y: int) -> bool {
        type_info_place(i) == (x, y) || type_info_second_place(i, dim) == (x, y)
    }
}

/// The version information at its two places, beside the upper right and the lower left
/// position detection pattern: bit `3 * i + j`, counted from the lowest, at `(i, dim - 11 +
/// j)` and at `(dim - 11 + j, i)`.
pub open spec fn version_info_at(bits: Seq<bool>, dim: int) -> spec_fn(int, int) -> Option<i8> {
    |x: int, y: int|
        if 0 <= x < 6 && dim - 11 <= y < dim - 8 {
            Some(bit_value(bits[17 - (3 * x + (y - (dim - 11)))]))
        } else if 0 <= y < 6 && dim - 11 <= x < dim - 8 {
            Some(bit_value(bits[17 - (3 * y + (x - (dim - 11)))]))
        } else {
            None
        }
}

/// The patterns and the information of a symbol: all but its data.
pub open spec fn function_patterns(
    number: int,
    centers: Seq<usize>,
    level_bits: u32,
    mask_pattern: int,
) -> Seq<Seq<i8>> {
    let dim = 4 * number + 17;
    let g = overlay(
        basic_patterns(number, centers),
        type_info_at(type_info_bits(level_bits, mask_pattern), dim, 15),
    );
    if number < 7 {
        g
    } else {
        overlay(g, version_info_at(version_info_bits(number), dim))
    }
}

/// The number of the pair of columns to which column `x` belongs. The pairs are counted
/// from the right edge; column 6, which holds a timing pattern, belongs to none.
pub open spec fn pair_of(dim: int, x: int) -> int {
    if x > 6 {
        (dim - 1 - x) / 2
    } else {
        (dim - 2 - x) / 2
    }
}

/// The right column of the pair numbered `p`.
pub open spec fn right_column(dim: int, p: int) -> int {
    if dim - 1 - 2 * p > 6 {
        dim - 1 - 2 * p
    } else {
        dim - 2 - 2 * p
    }
}

/// The place at which cell `(x, y)` comes within its pair of columns. The first pair is
/// walked upwards, the next downwards, and so on in turn; in each row the right cell comes
/// first.
pub open spec fn turn_of(dim: int, x: int, y: int) -> int {
    let p = pair_of(dim, x);
    let side = right_column(dim, p) - x;
    let step = if p % 2 == 0 {
        dim - 1 - y
    } else {
        y
    };
    2 * step + side
}

/// The cell that comes at place `r` within the pair of columns numbered `p`.
pub open spec fn cell_at_turn(dim: int, p: int, r: int) -> (int, int) {
    let x = right_column(dim, p) - r % 2;
    let y = if p % 2 == 0 {
        dim - 1 - r / 2
    } else {
        r / 2
    };
    (x, y)
}

/// The number of empty cells among the first `r` of the pair of columns numbered `p`.
pub open spec fn empty_in_pair(g: Seq<Seq<i8>>, dim: int, p: int, r: nat) -> nat
    decreases r,
{
    if r == 0 {
        0
    } else {
        let (x, y) = cell_at_turn(dim, p, r - 1);
        empty_in_pair(g, dim, p, (r - 1) as nat) + if g[y][x] == -1 {
            1nat
        } else {
            0nat
        }
    }
}

/// The number of empty cells in the first `p` pairs of columns.
pub open spec fn empty_in_pairs(g: Seq<Seq<i8>>, dim: int, p: nat) -> nat
    decreases p,
{
    if p == 0 {
        0
    } else {
        empty_in_pairs(g, dim, (p - 1) as nat) + empty_in_pair(g, dim, p - 1, (2 * dim) as nat)
    }
}

/// The number of empty cells of `g` that the walk over the pairs of columns meets.
pub open spec fn data_room(g: Seq<Seq<i8>>, dim: int) -> nat {
    empty_in_pairs(g, dim, ((dim - 1) / 2) as nat)
}

/// The `k`-th of the bits, and `false` beyond them.
pub open spec fn bit_or_padding(bits: Seq<bool>, k: int) -> bool {
    if 0 <= k < bits.len() {
        bits[k]
    } else {
        false
    }
}

/// The value of a data cell: the bit, turned where a mask is given and turns the cell.
pub open spec fn masked_value(bit: bool, mask_pattern: int, x: int, y: int) -> i8 {
    if mask_pattern != -1 && data_mask_bit(mask_pattern, x, y) {
        bit_value(!bit)
    } else {
        bit_value(bit)
    }
}

/// The data: each empty cell outside column 6 takes the bit whose number is the number of
/// empty cells that the walk over the pairs of columns has met before it.
pub open spec fn data_at(g: Seq<Seq<i8>>, bits: Seq<bool>, mask_pattern: int, dim: int) -> spec_fn(
    int,
    int,
) -> Option<i8> {
    |x: int, y: int|
        if 0 <= x < dim && 0 <= y < dim && x != 6 && g[y][x] == -1 {
            let p = pair_of(dim, x);
            let k = empty_in_pairs(g, dim, p as nat) + empty_in_pair(
                g,
                dim,
                p,
                turn_of(dim, x, y) as nat,
            );
            Some(masked_value(bit_or_padding(bits, k as int), mask_pattern, x, y))
        } else {
            None
        }
}

/// The modules of the symbol of the given version, level and mask that holds `bits`.
pub open spec fn symbol_modules(
    number: int,
    centers: Seq<usize>,
    level_bits: u32,
    mask_pattern: int,
    bits: Seq<bool>,
) -> Seq<Seq<i8>> {
    let g = function_patterns(number, centers, level_bits, mask_pattern);
    overlay(g, data_at(g, bits, mask_pattern, 4 * number + 17))
}

/// A number below `2^k` has at most `k` binary digits.
pub proof fn lemma_msb_bound(v: u32, k: nat)
    requires
        v < pow2(k),
    ensures
        msb_set(v) <= k,
    decreases k,
{
    if v != 0 {
        if k == 0 {
            lemma2_to64();
        } else {
            lemma_pow2_unfold(k);
            lemma_msb_bound(v / 2, (k - 1) as nat);
        }
    }
}

/// A matrix whose cells are those of an overlay has the overlay for its view.
pub proof fn lemma_is_overlay(m: &ByteMatrix, g: Seq<Seq<i8>>, f: spec_fn(int, int) -> Option<i8>)
    requires
        m.wf(),
        g.len() == m.spec_height(),
        forall|y: int| 0 <= y < g.len() ==> (#[trigger] g[y]).len() == m.spec_width(),
        forall|x: int, y: int|
            0 <= x < m.spec_width() && 0 <= y < m.spec_height() ==> #[trigger] m.at(x, y) == match f(
                x,
                y,
            ) {
                Some(v) => v,
                None => g[y][x],
            },
    ensures
        m@ == overlay(g, f),
{
    assert(m@ =~~= overlay(g, f));
}

impl MatrixUtil {
    const VERSION_INFO_POLY: u32 = 0x1f25;

    const TYPE_INFO_POLY: u32 = 0x537;

    const TYPE_INFO_MASK_PATTERN: u32 = 0x5412;

    fn clear_matrix(matrix: &mut ByteMatrix)
        requires
            old(matrix).wf(),
            old(matrix).spec_width() == old(matrix).spec_height(),
        ensures
            final(matrix).wf(),
            final(matrix).spec_width() == old(matrix).spec_width(),
            final(matrix).spec_height() == old(matrix).spec_height(),
            final(matrix)@ == blank(old(matrix).spec_width() as nat),
    {
        matrix.clear(-1);
        proof {
            matrix.lemma_view();
            let b = blank(matrix.spec_width() as nat);
            assert(matrix@.len() == b.len());
            assert forall|y: int| 0 <= y < b.len() implies matrix@[y] =~= b[y] by {
                assert(b[y].len() == matrix.spec_width());
                assert forall|x: int| 0 <= x < matrix.spec_width() implies matrix@[y][x]
                    == b[y][x] by {
                    assert(0 <= y < matrix.spec_height());
                    assert(matrix.at(x, y) == -1i8);
                }
            }
            assert(matrix@ =~= b);
        }
    }

    /// Builds the modules of the symbol of the given version, level and mask that holds
    /// `data_bits`. The matrix has the dimension of the version. A mask that is none of 0
    /// to 7 is refused, and so are more bits than the symbol has room for.
    pub fn build_matrix(
        data_bits: &BitArray,
        ec_level: &ErrorCorrectionLevel,
        version: &Version,
        mask_pattern: i32,
        matrix: &mut ByteMatrix,
    ) -> (r: Result<(), Error>)
        requires
            data_bits.wf(),
            version.wf(),
            old(matrix).wf(),
            old(matrix).spec_width() == version.spec_dimension(),
            old(matrix).spec_height() == version.spec_dimension(),
        ensures
            final(matrix).wf(),
            final(matrix).spec_width() == old(matrix).spec_width(),
            final(matrix).spec_height() == old(matrix).spec_height(),
            r is Ok <==> (0 <= mask_pattern < 8 && data_bits@.len() <= data_room(
                function_patterns(
                    version.spec_number(),
                    version.spec_centers(),
                    ec_level.spec_bits(),
                    mask_pattern as int,
                ),
                version.spec_dimension(),
            )),
            r is Ok ==> final(matrix)@ == symbol_modules(
                version.spec_number(),
                version.spec_centers(),
                ec_level.spec_bits(),
                mask_pattern as int,
                data_bits@,
            ),
            r matches Err(e) ==> e is WriterException,
    {
        if !QRCode::is_valid_mask_pattern(mask_pattern) {
            return Err(Error::WriterException("Invalid mask pattern".to_owned()));
        }
        MatrixUtil::build_function_patterns(ec_level, version, mask_pattern, matrix);
        // The data comes last.
        MatrixUtil::embed_data_bits(data_bits, mask_pattern, matrix)
    }

    /// Lays the patterns and the information of a symbol of the given version, level and
    /// mask into `matrix`, which has the dimension of the version. The cells that are
    /// left for data stay empty.
    pub fn build_function_patterns(
        ec_level: &ErrorCorrectionLevel,
        version: &Version,
        mask_pattern: i32,
        matrix: &mut ByteMatrix,
    )
        requires
            0 <= mask_pattern < 8,
            version.wf(),
            old(matrix).wf(),
            old(matrix).spec_width() == version.spec_dimension(),
            old(matrix).spec_height() == version.spec_dimension(),
        ensures
            final(matrix).wf(),
            final(matrix).spec_width() == old(matrix).spec_width(),
            final(matrix).spec_height() == old(matrix).spec_height(),
            final(matrix)@ == function_patterns(
                version.spec_number(),
                version.spec_centers(),
                ec_level.spec_bits(),
                mask_pattern as int,
            ),
    {
        MatrixUtil::clear_matrix(matrix);
        MatrixUtil::embed_basic_patterns(version, matrix);
        // Type information appears with any version.
        MatrixUtil::embed_type_info(ec_level, mask_pattern, matrix);
        // Version information appears from version 7 on.
        MatrixUtil::maybe_embed_version_info(version, matrix);
    }

    /// Whether a cell has not been decided yet.
    pub fn is_empty(value: i8) -> (b: bool)
        ensures
            b == (value == -1),
    {
        value == -1
    }

    fn embed_basic_patterns(version: &Version, matrix: &mut ByteMatrix)
        requires
            version.wf(),
            old(matrix).wf(),
            old(matrix).spec_width() == version.spec_dimension(),
            old(matrix).spec_height() == version.spec_dimension(),
            old(matrix)@ == blank(version.spec_dimension() as nat),
        ensures
            final(matrix).wf(),
            final(matrix).spec_width() == old(matrix).spec_width(),
            final(matrix).spec_height() == old(matrix).spec_height(),
            final(matrix)@ == basic_patterns(version.spec_number(), version.spec_centers()),
    {
        MatrixUtil::embed_position_detection_patterns_and_separators(matrix);
        proof {
            let dim = version.spec_dimension();
            let g = blank(dim as nat);
            let g1 = overlay(g, block_at(BlockKind::Finder, 0, 0, 7, 7));
            let g2 = overlay(g1, block_at(BlockKind::Finder, dim - 7, 0, 7, 7));
            let g3 = overlay(g2, block_at(BlockKind::Finder, 0, dim - 7, 7, 7));
            let g4 = overlay(g3, block_at(BlockKind::White, 0, 7, 8, 1));
            let g5 = overlay(g4, block_at(BlockKind::White, dim - 8, 7, 8, 1));
            let g6 = overlay(g5, block_at(BlockKind::White, 0, dim - 8, 8, 1));
            let g7 = overlay(g6, block_at(BlockKind::White, 7, 0, 1, 7));
            let g8 = overlay(g7, block_at(BlockKind::White, dim - 8, 0, 1, 7));
            let g9 = overlay(g8, block_at(BlockKind::White, 7, dim - 7, 1, 7));
            assert(g[dim - 8][8] == -1);
            assert(g1[dim - 8][8] == -1);
            assert(g2[dim - 8][8] == -1);
            assert(g3[dim - 8][8] == -1);
            assert(g4[dim - 8][8] == -1);
            assert(g5[dim - 8][8] == -1);
            assert(g6[dim - 8][8] == -1);
            assert(g7[dim - 8][8] == -1);
            assert(g8[dim - 8][8] == -1);
            assert(g9[dim - 8][8] == -1);
            matrix.lemma_view();
            assert(matrix.at(8, dim - 8) == matrix@[dim - 8][8]);
        }
        MatrixUtil::embed_dark_dot_at_left_bottom_corner(matrix);
        MatrixUtil::maybe_embed_position_adjustment_patterns(version, matrix);
        MatrixUtil::embed_timing_patterns(matrix);
    }

    fn embed_type_info(ec_level: &ErrorCorrectionLevel, mask_pattern: i32, matrix: &mut ByteMatrix)
        requires
            0 <= mask_pattern < 8,
            old(matrix).wf(),
            old(matrix).spec_width() == old(matrix).spec_height(),
            old(matrix).spec_width() >= 21,
        ensures
            final(matrix).wf(),
            final(matrix).spec_width() == old(matrix).spec_width(),
            final(matrix).spec_height() == old(matrix).spec_height(),
            final(matrix)@ == overlay(
                old(matrix)@,
                type_info_at(
                    type_info_bits(ec_level.spec_bits(), mask_pattern as int),
                    old(matrix).spec_width(),
                    15,
                ),
            ),
    {
        let mut type_info_bits_array = BitArray::new();
        let made = MatrixUtil::make_type_info_bits(ec_level, mask_pattern, &mut type_info_bits_array);
        let ghost g0 = matrix@;
        let ghost bits = type_info_bits(ec_level.spec_bits(), mask_pattern as int);
        let dim = matrix.get_width();
        proof {
            matrix.lemma_view();
        }
        let mut i: usize = 0;
        while i < 15
            invariant
                i <= 15,
                matrix.wf(),
                matrix.spec_width() == dim,
                matrix.spec_height() == dim,
                dim >= 21,
                square(g0, dim as int),
                type_info_bits_array.wf(),
                type_info_bits_array@ == bits,
                bits.len() == 15,
                forall|x: int, y: int|
                    0 <= x < dim && 0 <= y < dim ==> #[trigger] matrix.at(x, y) == match type_info_at(
                        bits,
                        dim as int,
                        i as int,
                    )(x, y) {
                        Some(v) => v,
                        None => g0[y][x],
                    },
            decreases 15 - i,
        {
            // The lowest bit is the last one of the array.
            let bit = type_info_bits_array.get(14 - i);
            let value: i8 = if bit {
                1
            } else {
                0
            };
            let (x1, y1): (usize, usize) = if i < 6 {
                (8, i)
            } else if i == 6 {
                (8, 7)
            } else if i == 7 {
                (8, 8)
            } else if i == 8 {
                (7, 8)
            } else {
                (14 - i, 8)
            };
            let (x2, y2): (usize, usize) = if i < 8 {
                (dim - i - 1, 8)
            } else {
                (8, dim - 7 + (i - 8))
            };
            let ghost before = *matrix;
            matrix.set(x1, y1, value);
            matrix.set(x2, y2, value);
            proof {
                assert forall|x: int, y: int| 0 <= x < dim && 0 <= y < dim implies #[trigger] matrix.at(
                    x,
                    y,
                ) == match type_info_at(bits, dim as int, i + 1)(x, y) {
                    Some(v) => v,
                    None => g0[y][x],
                } by {
                    lemma_type_places(dim as int, i as int, x, y);
                    if TypePlace::holds(i as int, dim as int, x, y) {
                        let j = choose|j: int|
                            0 <= j < i + 1 && TypePlace::holds(j, dim as int, x, y);
                        lemma_type_places_apart(dim as int, i as int, j, x, y);
                    } else {
                        if exists|j: int| 0 <= j < i + 1 && TypePlace::holds(j, dim as int, x, y) {
                            let j = choose|j: int|
                                0 <= j < i + 1 && TypePlace::holds(j, dim as int, x, y);
                            assert(0 <= j < i && TypePlace::holds(j, dim as int, x, y));
                            let j2 = choose|j: int|
                                0 <= j < i && TypePlace::holds(j, dim as int, x, y);
                            lemma_type_places_apart(dim as int, j, j2, x, y);
                        } else {
                            assert(!exists|j: int|
                                0 <= j < i && TypePlace::holds(j, dim as int, x, y));
                        }
                        assert(matrix.at(x, y) == before.at(x, y));
                    }
                }
            }
            i += 1;
        }
        proof {
            lemma_is_overlay(matrix, g0, type_info_at(bits, dim as int, 15));
        }
    }

    fn maybe_embed_version_info(version: &Version, matrix: &mut ByteMatrix)
        requires
            version.wf(),
            old(matrix).wf(),
            old(matrix).spec_width() == version.spec_dimension(),
            old(matrix).spec_height() == version.spec_dimension(),
        ensures
            final(matrix).wf(),
            final(matrix).spec_width() == old(matrix).spec_width(),
            final(matrix).spec_height() == old(matrix).spec_height(),
            final(matrix)@ == if version.spec_number() < 7 {
                old(matrix)@
            } else {
                overlay(
                    old(matrix)@,
                    version_info_at(
                        version_info_bits(version.spec_number()),
                        version.spec_dimension(),
                    ),
                )
            },
    {
        if version.get_version_number() < 7 {
            return ;
        }
        let mut version_info_bits_array = BitArray::new();
        MatrixUtil::make_version_info_bits(version, &mut version_info_bits_array);
        let ghost g0 = matrix@;
        let ghost bits = version_info_bits(version.spec_number());
        let dim = matrix.get_height();
        proof {
            matrix.lemma_view();
        }
        let mut i: usize = 0;
        while i < 6
            invariant
                i <= 6,
                matrix.wf(),
                matrix.spec_width() == dim,
                matrix.spec_height() == dim,
                dim >= 45,
                square(g0, dim as int),
                version_info_bits_array.wf(),
                version_info_bits_array@ == bits,
                bits.len() == 18,
                forall|x: int, y: int|
                    0 <= x < dim && 0 <= y < dim ==> #[trigger] matrix.at(x, y) == if 0 <= x < i
                        && dim - 11 <= y < dim - 8 {
                        bit_value(bits[17 - (3 * x + (y - (dim - 11)))])
                    } else if 0 <= y < i && dim - 11 <= x < dim - 8 {
                        bit_value(bits[17 - (3 * y + (x - (dim - 11)))])
                    } else {
                        g0[y][x]
                    },
            decreases 6 - i,
        {
            let mut j: usize = 0;
            while j < 3
                invariant
                    i < 6,
                    j <= 3,
                    matrix.wf(),
                    matrix.spec_width() == dim,
                    matrix.spec_height() == dim,
                    dim >= 45,
                    square(g0, dim as int),
                    version_info_bits_array.wf(),
                    version_info_bits_array@ == bits,
                    bits.len() == 18,
                    forall|x: int, y: int|
                        0 <= x < dim && 0 <= y < dim ==> #[trigger] matrix.at(x, y) == if ((0 <= x
                            < i && dim - 11 <= y < dim - 8) || (x == i && dim - 11 <= y < dim - 11
                            + j)) {
                            bit_value(bits[17 - (3 * x + (y - (dim - 11)))])
                        } else if ((0 <= y < i && dim - 11 <= x < dim - 8) || (y == i && dim - 11
                            <= x < dim - 11 + j)) {
                            bit_value(bits[17 - (3 * y + (x - (dim - 11)))])
                        } else {
                            g0[y][x]
                        },
                decreases 3 - j,
            {
                // The lowest bit is the last one of the array.
                let bit = version_info_bits_array.get(17 - (i * 3 + j));
                let value: i8 = if bit {
                    1
                } else {
                    0
                };
                // Beside the lower left pattern.
                matrix.set(i, dim - 11 + j, value);
                // Beside the upper right pattern.
                matrix.set(dim - 11 + j, i, value);
                j += 1;
            }
            i += 1;
        }
        proof {
            lemma_is_overlay(matrix, g0, version_info_at(bits, dim as int));
        }
    }

    /// Lays the data into the empty cells, walking the pairs of columns from the right
    /// edge, the first pair upwards, the next downwards and so on, and leaving out column
    /// 6. A bit is turned where the mask turns its cell; the mask -1 turns none. Cells
    /// for which no bit is left become white. More bits than there are empty cells are
    /// refused.
    fn embed_data_bits(data_bits: &BitArray, mask_pattern: i32, matrix: &mut ByteMatrix) -> (r:
        Result<(), Error>)
        requires
            data_bits.wf(),
            -1 <= mask_pattern < 8,
            old(matrix).wf(),
            old(matrix).spec_width() == old(matrix).spec_height(),
            old(matrix).spec_width() % 2 == 1,
            9 <= old(matrix).spec_width() <= 0x1000,
        ensures
            final(matrix).wf(),
            final(matrix).spec_width() == old(matrix).spec_width(),
            final(matrix).spec_height() == old(matrix).spec_height(),
            final(matrix)@ == overlay(
                old(matrix)@,
                data_at(old(matrix)@, data_bits@, mask_pattern as int, old(matrix).spec_width()),
            ),
            r is Ok <==> data_bits@.len() <= data_room(old(matrix)@, old(matrix).spec_width()),
            r matches Err(e) ==> e is WriterException,
    {
        let ghost g0 = matrix@;
        let dim = matrix.get_width();
        let size = data_bits.get_size();
        proof {
            matrix.lemma_view();
        }
        let mut bit_index: usize = 0;
        let mut upwards = true;
        // Start from the right bottom cell.
        let mut x: usize = dim - 1;
        let ghost mut p: int = 0;
        while x > 0
            invariant
                data_bits.wf(),
                size == data_bits@.len(),
                -1 <= mask_pattern < 8,
                matrix.wf(),
                matrix.spec_width() == dim,
                matrix.spec_height() == dim,
                dim % 2 == 1,
                9 <= dim <= 0x1000,
                square(g0, dim as int),
                0 <= p <= (dim - 1) / 2,
                p < (dim - 1) / 2 ==> (x == dim - 1 - 2 * p && x >= 6) || (x == dim - 2 - 2 * p
                    && x < 6),
                p < (dim - 1) / 2 ==> x >= 1,
                p == (dim - 1) / 2 ==> x == 0,
                upwards == (p % 2 == 0),
                bit_index <= size,
                bit_index == if empty_in_pairs(g0, dim as int, p as nat) <= size {
                    empty_in_pairs(g0, dim as int, p as nat)
                } else {
                    size as nat
                },
                forall|cx: int, cy: int|
                    0 <= cx < dim && 0 <= cy < dim ==> #[trigger] matrix.at(cx, cy) == if cx != 6
                        && pair_of(dim as int, cx) < p {
                        match data_at(g0, data_bits@, mask_pattern as int, dim as int)(cx, cy) {
                            Some(v) => v,
                            None => g0[cy][cx],
                        }
                    } else {
                        g0[cy][cx]
                    },
            decreases x,
        {
            // Skip the vertical timing pattern.
            if x == 6 {
                x -= 1;
            }
            assert(x == right_column(dim as int, p));
            let ghost filled = empty_in_pairs(g0, dim as int, p as nat);
            let mut step: usize = 0;
            while step < dim
                invariant
                    data_bits.wf(),
                    size == data_bits@.len(),
                    -1 <= mask_pattern < 8,
                    matrix.wf(),
                    matrix.spec_width() == dim,
                    matrix.spec_height() == dim,
                    dim % 2 == 1,
                    9 <= dim <= 0x1000,
                    square(g0, dim as int),
                    0 <= p < (dim - 1) / 2,
                    x == right_column(dim as int, p),
                    1 <= x < dim,
                    x != 6,
                    x != 7,
                    upwards == (p % 2 == 0),
                    step <= dim,
                    filled == empty_in_pairs(g0, dim as int, p as nat),
                    bit_index <= size,
                    bit_index == if filled + empty_in_pair(g0, dim as int, p, (2 * step) as nat)
                        <= size {
                        filled + empty_in_pair(g0, dim as int, p, (2 * step) as nat)
                    } else {
                        size as nat
                    },
                    forall|cx: int, cy: int|
                        0 <= cx < dim && 0 <= cy < dim ==> #[trigger] matrix.at(cx, cy) == if cx
                            != 6 && (pair_of(dim as int, cx) < p || (pair_of(dim as int, cx) == p
                            && turn_of(dim as int, cx, cy) < 2 * step)) {
                            match data_at(g0, data_bits@, mask_pattern as int, dim as int)(cx, cy) {
                                Some(v) => v,
                                None => g0[cy][cx],
                            }
                        } else {
                            g0[cy][cx]
                        },
                decreases dim - step,
            {
                let y: usize = if upwards {
                    dim - 1 - step
                } else {
                    step
                };
                let mut i: usize = 0;
                while i < 2
                    invariant
                        data_bits.wf(),
                        size == data_bits@.len(),
                        -1 <= mask_pattern < 8,
                        matrix.wf(),
                        matrix.spec_width() == dim,
                        matrix.spec_height() == dim,
                        dim % 2 == 1,
                        9 <= dim <= 0x1000,
                        square(g0, dim as int),
                        0 <= p < (dim - 1) / 2,
                        x == right_column(dim as int, p),
                        1 <= x < dim,
                        x != 6,
                        x != 7,
                        upwards == (p % 2 == 0),
                        step < dim,
                        y == if upwards {
                            dim - 1 - step
                        } else {
                            step as int
                        },
                        i <= 2,
                        filled == empty_in_pairs(g0, dim as int, p as nat),
                        bit_index <= size,
                        bit_index == if filled + empty_in_pair(
                            g0,
                            dim as int,
                            p,
                            (2 * step + i) as nat,
                        ) <= size {
                            filled + empty_in_pair(g0, dim as int, p, (2 * step + i) as nat)
                        } else {
                            size as nat
                        },
                        forall|cx: int, cy: int|
                            0 <= cx < dim && 0 <= cy < dim ==> #[trigger] matrix.at(cx, cy) == if cx
                                != 6 && (pair_of(dim as int, cx) < p || (pair_of(dim as int, cx)
                                == p && turn_of(dim as int, cx, cy) < 2 * step + i)) {
                                match data_at(g0, data_bits@, mask_pattern as int, dim as int)(
                                    cx,
                                    cy,
                                ) {
                                    Some(v) => v,
                                    None => g0[cy][cx],
                                }
                            } else {
                                g0[cy][cx]
                            },
                    decreases 2 - i,
                {
                    let xx: usize = x - i;
                    let ghost turn = 2 * step + i;
                    proof {
                        assert(cell_at_turn(dim as int, p, turn) == (xx as int, y as int));
                        assert(pair_of(dim as int, xx as int) == p);
                        assert(turn_of(dim as int, xx as int, y as int) == turn);
                        assert(matrix.at(xx as int, y as int) == g0[y as int][xx as int]);
                    }
                    let ghost before = *matrix;
                    // A cell that is not empty is passed over.
                    if MatrixUtil::is_empty(matrix.get(xx, y)) {
                        let mut bit: bool = false;
                        if bit_index < size {
                            bit = data_bits.get(bit_index);
                            bit_index += 1;
                        }
                        // Where no bit is left the cell becomes white, and is masked as any
                        // other.
                        if mask_pattern != -1 && MaskUtil::get_data_mask_bit(mask_pattern, xx, y) {
                            bit = !bit;
                        }
                        matrix.set(xx, y, if bit {
                            1
                        } else {
                            0
                        });
                    }
                    proof {
                        assert forall|cx: int, cy: int|
                            0 <= cx < dim && 0 <= cy < dim implies #[trigger] matrix.at(cx, cy)
                            == if cx != 6 && (pair_of(dim as int, cx) < p || (pair_of(
                            dim as int,
                            cx,
                        ) == p && turn_of(dim as int, cx, cy) < turn + 1)) {
                            match data_at(g0, data_bits@, mask_pattern as int, dim as int)(cx, cy) {
                                Some(v) => v,
                                None => g0[cy][cx],
                            }
                        } else {
                            g0[cy][cx]
                        } by {
                            if cx == xx && cy == y {
                            } else {
                                assert(matrix.at(cx, cy) == before.at(cx, cy));
                                if cx != 6 && pair_of(dim as int, cx) == p {
                                    lemma_turns_apart(dim as int, cx, cy, xx as int, y as int);
                                }
                            }
                        }
                    }
                    i += 1;
                }
                step += 1;
            }
            upwards = !upwards;
            proof {
                p = p + 1;
                assert forall|cx: int, cy: int| 0 <= cx < dim && 0 <= cy < dim implies #[trigger] matrix.at(
                    cx,
                    cy,
                ) == if cx != 6 && pair_of(dim as int, cx) < p {
                    match data_at(g0, data_bits@, mask_pattern as int, dim as int)(cx, cy) {
                        Some(v) => v,
                        None => g0[cy][cx],
                    }
                } else {
                    g0[cy][cx]
                } by {
                    if cx != 6 && pair_of(dim as int, cx) == p - 1 {
                        assert(0 <= turn_of(dim as int, cx, cy) < 2 * dim);
                    }
                }
            }
            // Move to the next pair on the left.
            if x >= 2 {
                x -= 2;
            } else {
                x = 0;
            }
        }
        proof {
            assert forall|cx: int, cy: int| 0 <= cx < dim && 0 <= cy < dim implies #[trigger] matrix.at(
                cx,
                cy,
            ) == match data_at(g0, data_bits@, mask_pattern as int, dim as int)(cx, cy) {
                Some(v) => v,
                None => g0[cy][cx],
            } by {
                if cx != 6 {
                    assert(pair_of(dim as int, cx) < (dim - 1) / 2);
                }
            }
            lemma_is_overlay(matrix, g0, data_at(g0, data_bits@, mask_pattern as int, dim as int));
        }
        // All bits must have found a cell.
        if bit_index != size {
            return Err(Error::WriterException("Not all bits consumed".to_owned()));
        }
        Ok(())
    }

    fn embed_timing_patterns(matrix: &mut ByteMatrix)
        requires
            old(matrix).wf(),
            old(matrix).spec_width() == old(matrix).spec_height(),
            old(matrix).spec_width() >= 21,
        ensures
            final(matrix).wf(),
            final(matrix).spec_width() == old(matrix).spec_width(),
            final(matrix).spec_height() == old(matrix).spec_height(),
            final(matrix)@ == overlay(
                old(matrix)@,
                timing_at(old(matrix)@, old(matrix).spec_width()),
            ),
    {
        let ghost g0 = matrix@;
        let dim = matrix.get_width();
        proof {
            matrix.lemma_view();
        }
        // The position detection patterns and their separators take eight cells at
        // either end.
        let mut i: usize = 8;
        while i < dim - 8
            invariant
                8 <= i <= dim - 8,
                matrix.wf(),
                matrix.spec_width() == dim,
                matrix.spec_height() == dim,
                dim >= 21,
                square(g0, dim as int),
                forall|x: int, y: int|
                    0 <= x < dim && 0 <= y < dim ==> #[trigger] matrix.at(x, y) == if y == 6 && 8
                        <= x < i && g0[6][x] == -1 {
                        ((x + 1) % 2) as i8
                    } else if x == 6 && 8 <= y < i && g0[y][6] == -1 {
                        ((y + 1) % 2) as i8
                    } else {
                        g0[y][x]
                    },
            decreases dim - 8 - i,
        {
            let bit: i8 = ((i + 1) % 2) as i8;
            // Horizontal line.
            if MatrixUtil::is_empty(matrix.get(i, 6)) {
                matrix.set(i, 6, bit);
            }
            // Vertical line.
            if MatrixUtil::is_empty(matrix.get(6, i)) {
                matrix.set(6, i, bit);
            }
            i += 1;
        }
        proof {
            lemma_is_overlay(matrix, g0, timing_at(g0, dim as int));
        }
    }

    // The lonely dark module at the left bottom corner.
    fn embed_dark_dot_at_left_bottom_corner(matrix: &mut ByteMatrix)
        requires
            old(matrix).wf(),
            old(matrix).spec_width() == old(matrix).spec_height(),
            old(matrix).spec_width() >= 21,
            old(matrix).at(8, old(matrix).spec_height() - 8) != 0,
        ensures
            final(matrix).wf(),
            final(matrix).spec_width() == old(matrix).spec_width(),
            final(matrix).spec_height() == old(matrix).spec_height(),
            final(matrix)@ == dark_dot(old(matrix)@, old(matrix).spec_width()),
    {
        let dim = matrix.get_height();
        MatrixUtil::embed_block(BlockKind::Dark, 8, dim - 8, 1, 1, matrix);
    }

    fn embed_horizontal_separation_pattern(x_start: usize, y_start: usize, matrix: &mut ByteMatrix)
        requires
            old(matrix).wf(),
            x_start + 8 <= old(matrix).spec_width(),
            y_start < old(matrix).spec_height(),
            forall|x: int| x_start <= x < x_start + 8 ==> #[trigger] old(matrix).at(x, y_start as int) == -1,
        ensures
            final(matrix).wf(),
            final(matrix).spec_width() == old(matrix).spec_width(),
            final(matrix).spec_height() == old(matrix).spec_height(),
            final(matrix)@ == overlay(
                old(matrix)@,
                block_at(BlockKind::White, x_start as int, y_start as int, 8, 1),
            ),
    {
        MatrixUtil::embed_block(BlockKind::White, x_start, y_start, 8, 1, matrix);
    }

    fn embed_vertical_separation_pattern(x_start: usize, y_start: usize, matrix: &mut ByteMatrix)
        requires
            old(matrix).wf(),
            x_start < old(matrix).spec_width(),
            y_start + 7 <= old(matrix).spec_height(),
            forall|y: int| y_start <= y < y_start + 7 ==> #[trigger] old(matrix).at(x_start as int, y) == -1,
        ensures
            final(matrix).wf(),
            final(matrix).spec_width() == old(matrix).spec_width(),
            final(matrix).spec_height() == old(matrix).spec_height(),
            final(matrix)@ == overlay(
                old(matrix)@,
                block_at(BlockKind::White, x_start as int, y_start as int, 1, 7),
            ),
    {
        MatrixUtil::embed_block(BlockKind::White, x_start, y_start, 1, 7, matrix);
    }

    fn embed_position_adjustment_pattern(x_start: usize, y_start: usize, matrix: &mut ByteMatrix)
        requires
            old(matrix).wf(),
            x_start + 5 <= old(matrix).spec_width(),
            y_start + 5 <= old(matrix).spec_height(),
        ensures
            final(matrix).wf(),
            final(matrix).spec_width() == old(matrix).spec_width(),
            final(matrix).spec_height() == old(matrix).spec_height(),
            final(matrix)@ == overlay(
                old(matrix)@,
                block_at(BlockKind::Alignment, x_start as int, y_start as int, 5, 5),
            ),
    {
        MatrixUtil::embed_block(BlockKind::Alignment, x_start, y_start, 5, 5, matrix);
    }

    fn embed_position_detection_pattern(x_start: usize, y_start: usize, matrix: &mut ByteMatrix)
        requires
            old(matrix).wf(),
            x_start + 7 <= old(matrix).spec_width(),
            y_start + 7 <= old(matrix).spec_height(),
        ensures
            final(matrix).wf(),
            final(matrix).spec_width() == old(matrix).spec_width(),
            final(matrix).spec_height() == old(matrix).spec_height(),
            final(matrix)@ == overlay(
                old(matrix)@,
                block_at(BlockKind::Finder, x_start as int, y_start as int, 7, 7),
            ),
    {
        MatrixUtil::embed_block(BlockKind::Finder, x_start, y_start, 7, 7, matrix);
    }

    /// The cell at column `dx` of row `dy` of a block of the given kind.
    fn block_cell(kind: BlockKind, dx: usize, dy: usize) -> (v: i8)
        ensures
            v == block_value(kind, dx as int, dy as int),
    {
        match kind {
            BlockKind::White => 0,
            BlockKind::Dark => 1,
            BlockKind::Finder => {
                if dx == 0 || dx == 6 || dy == 0 || dy == 6 {
                    1
                } else if 2 <= dx && dx <= 4 && 2 <= dy && dy <= 4 {
                    1
                } else {
                    0
                }
            },
            BlockKind::Alignment => {
                if dx == 0 || dx == 4 || dy == 0 || dy == 4 {
                    1
                } else if dx == 2 && dy == 2 {
                    1
                } else {
                    0
                }
            },
        }
    }

    /// Lays a block of the given kind, `width` cells wide and `height` high, with its top
    /// left cell at `(x_start, y_start)`.
    fn embed_block(
        kind: BlockKind,
        x_start: usize,
        y_start: usize,
        width: usize,
        height: usize,
        matrix: &mut ByteMatrix,
    )
        requires
            old(matrix).wf(),
            x_start + width <= old(matrix).spec_width(),
            y_start + height <= old(matrix).spec_height(),
        ensures
            final(matrix).wf(),
            final(matrix).spec_width() == old(matrix).spec_width(),
            final(matrix).spec_height() == old(matrix).spec_height(),
            final(matrix)@ == overlay(
                old(matrix)@,
                block_at(kind, x_start as int, y_start as int, width as int, height as int),
            ),
    {
        let ghost g0 = matrix@;
        let w = matrix.get_width();
        let h = matrix.get_height();
        proof {
            matrix.lemma_view();
        }
        let mut y: usize = 0;
        while y < height
            invariant
                y <= height,
                matrix.wf(),
                matrix.spec_width() == w,
                matrix.spec_height() == h,
                x_start + width <= w,
                y_start + height <= h,
                forall|cx: int, cy: int|
                    0 <= cx < w && 0 <= cy < h ==> #[trigger] matrix.at(cx, cy) == if x_start <= cx
                        < x_start + width && y_start <= cy < y_start + y {
                        block_value(kind, cx - x_start, cy - y_start)
                    } else {
                        g0[cy][cx]
                    },
            decreases height - y,
        {
            let mut x: usize = 0;
            while x < width
                invariant
                    y < height,
                    x <= width,
                    matrix.wf(),
                    matrix.spec_width() == w,
                    matrix.spec_height() == h,
                    x_start + width <= w,
                    y_start + height <= h,
                    forall|cx: int, cy: int|
                        0 <= cx < w && 0 <= cy < h ==> #[trigger] matrix.at(cx, cy) == if (x_start
                            <= cx < x_start + width && y_start <= cy < y_start + y) || (cy
                            == y_start + y && x_start <= cx < x_start + x) {
                            block_value(kind, cx - x_start, cy - y_start)
                        } else {
                            g0[cy][cx]
                        },
                decreases width - x,
            {
                matrix.set(x_start + x, y_start + y, MatrixUtil::block_cell(kind, x, y));
                x += 1;
            }
            y += 1;
        }
        proof {
            lemma_is_overlay(
                matrix,
                g0,
                block_at(kind, x_start as int, y_start as int, width as int, height as int),
            );
        }
    }

    // The three position detection patterns and the separators around them.
    fn embed_position_detection_patterns_and_separators(matrix: &mut ByteMatrix)
        requires
            old(matrix).wf(),
            old(matrix).spec_width() == old(matrix).spec_height(),
            old(matrix).spec_width() >= 21,
            old(matrix)@ == blank(old(matrix).spec_width() as nat),
        ensures
            final(matrix).wf(),
            final(matrix).spec_width() == old(matrix).spec_width(),
            final(matrix).spec_height() == old(matrix).spec_height(),
            final(matrix)@ == finders_and_separators(old(matrix)@, old(matrix).spec_width()),
    {
        let pdp_width: usize = 7;
        let dim = matrix.get_width();
        // Left top corner.
        MatrixUtil::embed_position_detection_pattern(0, 0, matrix);
        // Right top corner.
        MatrixUtil::embed_position_detection_pattern(dim - pdp_width, 0, matrix);
        // Left bottom corner.
        MatrixUtil::embed_position_detection_pattern(0, dim - pdp_width, matrix);
        proof {
            matrix.lemma_view();
        }
        let hsp_width: usize = 8;
        // Left top corner.
        MatrixUtil::embed_horizontal_separation_pattern(0, hsp_width - 1, matrix);
        proof {
            matrix.lemma_view();
        }
        // Right top corner.
        MatrixUtil::embed_horizontal_separation_pattern(dim - hsp_width, hsp_width - 1, matrix);
        proof {
            matrix.lemma_view();
        }
        // Left bottom corner.
        MatrixUtil::embed_horizontal_separation_pattern(0, dim - hsp_width, matrix);
        proof {
            matrix.lemma_view();
        }
        let vsp_size: usize = 7;
        // Left top corner.
        MatrixUtil::embed_vertical_separation_pattern(vsp_size, 0, matrix);
        proof {
            matrix.lemma_view();
        }
        // Right top corner.
        MatrixUtil::embed_vertical_separation_pattern(dim - vsp_size - 1, 0, matrix);
        proof {
            matrix.lemma_view();
        }
        // Left bottom corner.
        MatrixUtil::embed_vertical_separation_pattern(vsp_size, dim - vsp_size, matrix);
    }

    /// The number of binary digits of `value`: the place of its highest bit, counted from
    /// one, and zero for zero.
    pub fn find_msb_set(value: u32) -> (n: u32)
        ensures
            n == msb_set(value),
            n <= 32,
    {
        let mut v: u32 = value;
        let mut n: u32 = 0;
        proof {
            lemma2_to64();
            lemma_msb_bound(value, 32);
        }
        while v != 0
            invariant
                n + msb_set(v) == msb_set(value),
                msb_set(value) <= 32,
            decreases v,
        {
            v = v / 2;
            n += 1;
        }
        n
    }

    /// The check bits of `value` under the generator `poly`, both polynomials whose
    /// coefficients are their bits: the remainder of `value`, shifted up by the degree of
    /// `poly`, on division by `poly`.
    pub fn calculate_bch_code(value: u32, poly: u32) -> (code: u32)
        requires
            poly != 0,
        ensures
            code == bch_code(value, poly),
    {
        let msb_set_in_poly = MatrixUtil::find_msb_set(poly);
        let mut rest: u32 = value << (msb_set_in_poly - 1);
        let mut steps: u32 = 32;
        // Divide by exclusive or.
        while steps > 0 && MatrixUtil::find_msb_set(rest) >= msb_set_in_poly
            invariant
                msb_set_in_poly == msb_set(poly),
                1 <= msb_set_in_poly <= 32,
                steps <= 32,
                bch_reduce(rest, poly, steps as nat) == bch_code(value, poly),
            decreases steps,
        {
            let shift = MatrixUtil::find_msb_set(rest) - msb_set_in_poly;
            rest = rest ^ (poly << shift);
            steps -= 1;
        }
        rest
    }

    /// Appends the fifteen bits of type information for the given level and mask to
    /// `bits`, which is empty. A mask that is none of 0 to 7 is refused.
    pub fn make_type_info_bits(ec_level: &ErrorCorrectionLevel, mask_pattern: i32, bits: &mut BitArray) -> (r:
        Result<(), Error>)
        requires
            old(bits).wf(),
            old(bits).clean(),
            old(bits).spec_size() == 0,
        ensures
            final(bits).wf(),
            r is Ok <==> 0 <= mask_pattern < 8,
            r is Ok ==> final(bits)@ == type_info_bits(ec_level.spec_bits(), mask_pattern as int),
            r matches Err(e) ==> e is WriterException && *final(bits) == *old(bits),
    {
        if !QRCode::is_valid_mask_pattern(mask_pattern) {
            return Err(Error::WriterException("Invalid mask pattern".to_owned()));
        }
        let type_info: u32 = (ec_level.get_bits() << 3) | (mask_pattern as u32);
        let appended = bits.append_bits(type_info, 5);
        let bch_code = MatrixUtil::calculate_bch_code(type_info, MatrixUtil::TYPE_INFO_POLY);
        let appended = bits.append_bits(bch_code, 10);
        let mut mask_bits = BitArray::new();
        let appended = mask_bits.append_bits(MatrixUtil::TYPE_INFO_MASK_PATTERN, 15);
        let ghost plain = bits@;
        bits.xor(&mask_bits);
        proof {
            assert(bits@ =~= type_info_bits(ec_level.spec_bits(), mask_pattern as int));
        }
        Ok(())
    }

    /// Appends the eighteen bits of version information to `bits`, which is empty.
    pub fn make_version_info_bits(version: &Version, bits: &mut BitArray)
        requires
            version.wf(),
            old(bits).wf(),
            old(bits).clean(),
            old(bits).spec_size() == 0,
        ensures
            final(bits).wf(),
            final(bits)@ == version_info_bits(version.spec_number()),
    {
        let number: u32 = version.get_version_number() as u32;
        let appended = bits.append_bits(number, 6);
        let bch_code = MatrixUtil::calculate_bch_code(number, MatrixUtil::VERSION_INFO_POLY);
        let appended = bits.append_bits(bch_code, 12);
    }

    // The position adjustment patterns, from version 2 on.
    fn maybe_embed_position_adjustment_patterns(version: &Version, matrix: &mut ByteMatrix)
        requires
            version.wf(),
            old(matrix).wf(),
            old(matrix).spec_width() == version.spec_dimension(),
            old(matrix).spec_height() == version.spec_dimension(),
        ensures
            final(matrix).wf(),
            final(matrix).spec_width() == old(matrix).spec_width(),
            final(matrix).spec_height() == old(matrix).spec_height(),
            final(matrix)@ == aligned(old(matrix)@, version.spec_number(), version.spec_centers()),
    {
        if version.get_version_number() < 2 {
            return ;
        }
        let ghost g0 = matrix@;
        let ghost dim = version.spec_dimension();
        let coordinates = version.get_alignment_pattern_centers();
        let n = coordinates.len();
        let mut yi: usize = 0;
        while yi < n
            invariant
                version.wf(),
                coordinates@ == version.spec_centers(),
                n == coordinates@.len(),
                yi <= n,
                dim == version.spec_dimension(),
                matrix.wf(),
                matrix.spec_width() == dim,
                matrix.spec_height() == dim,
                matrix@ == align_rows(g0, coordinates@, yi as nat),
            decreases n - yi,
        {
            let y = coordinates[yi];
            let ghost row_start = matrix@;
            let mut xi: usize = 0;
            while xi < n
                invariant
                    version.wf(),
                    coordinates@ == version.spec_centers(),
                    n == coordinates@.len(),
                    yi < n,
                    xi <= n,
                    y == coordinates@[yi as int],
                    dim == version.spec_dimension(),
                    matrix.wf(),
                    matrix.spec_width() == dim,
                    matrix.spec_height() == dim,
                    matrix@ == align_row(row_start, coordinates@, y as int, xi as nat),
                decreases n - xi,
            {
                let x = coordinates[xi];
                proof {
                    matrix.lemma_view();
                }
                if MatrixUtil::is_empty(matrix.get(x, y)) {
                    // The coordinates are those of the center of the pattern.
                    MatrixUtil::embed_position_adjustment_pattern(x - 2, y - 2, matrix);
                }
                xi += 1;
            }
            yi += 1;
        }
    }
}

/// Where the `i`-th bit of type information lies, and that its two places are cells.
pub proof fn lemma_type_places(dim: int, i: int, x: int, y: int)
    requires
        dim >= 21,
        0 <= i < 15,
    ensures
        0 <= type_info_place(i).0 < dim && 0 <= type_info_place(i).1 < dim,
        0 <= type_info_second_place(i, dim).0 < dim && 0 <= type_info_second_place(i, dim).1 < dim,
        type_info_place(i) != type_info_second_place(i, dim),
{
}

/// A cell is a place of one bit of type information at most.
pub proof fn lemma_type_places_apart(dim: int, i: int, j: int, x: int, y: int)
    requires
        dim >= 21,
        0 <= i < 15,
        0 <= j < 15,
        TypePlace::holds(i, dim, x, y),
        TypePlace::holds(j, dim, x, y),
    ensures
        i == j,
{
}

/// Two cells of one pair of columns come at different places of the walk.
pub proof fn lemma_turns_apart(dim: int, x1: int, y1: int, x2: int, y2: int)
    requires
        dim % 2 == 1,
        dim >= 9,
        0 <= x1 < dim,
        0 <= y1 < dim,
        0 <= x2 < dim,
        0 <= y2 < dim,
        x1 != 6,
        x2 != 6,
        pair_of(dim, x1) == pair_of(dim, x2),
        x1 != x2 || y1 != y2,
    ensures
        turn_of(dim, x1, y1) != turn_of(dim, x2, y2),
{
}

} // verus!
