use crate::common::bit_array::{lemma_low_bits_value, low_bits};
use crate::common::bit_matrix::BitMatrix;
use crate::common::bit_source::bytes_bits;
use crate::common::reedsolomon::code_laws::{
    lemma_encoded_block_is_left, lemma_parity_elements, qr_elements,
};
use crate::common::reedsolomon::qr_field::{QR_PRIMITIVE, QR_SIZE};
use crate::common::reedsolomon::reed_solomon_decoder::FieldSpec;
use crate::qrcode::decoder::bit_matrix_parser::{
    read_bits, read_in_pair, read_in_pairs, BitMatrixParser,
};
use crate::qrcode::decoder::data_block::{block_codewords, data_place, lemma_places};
use crate::qrcode::decoder::decoder::{corrected_block, corrected_upto, qr_field};
use crate::qrcode::decoder::version::Version;
use crate::qrcode::encoder::encoder_blocks::{
    bits_bytes, block_data, block_data_len, block_ec_len, block_offset, block_parity, in_turn,
    interleaved, lemma_block_offsets, lemma_shareable, lemma_table_place, narrowed, shareable,
    short_blocks, widened,
};
use crate::qrcode::encoder::mask_util::data_mask_bit;
use crate::qrcode::encoder::matrix_util::{
    align_row, align_rows, bit_or_padding, blank, cell_at_turn, dark_dot, data_at, data_room,
    empty_in_pair, empty_in_pairs, finders_and_separators, function_patterns, overlay, pair_of,
    square, symbol_modules, turn_of,
};
use vstd::arithmetic::power2::lemma2_to64;
use vstd::prelude::*;

verus! {

/// Whether `matrix` shows the modules `modules` of a symbol of dimension `dim`: a cell is
/// set where the module is dark.
pub open spec fn shows_modules(matrix: BitMatrix, modules: Seq<Seq<i8>>, dim: int) -> bool {
    &&& matrix.spec_width() == dim
    &&& matrix.spec_height() == dim
    &&& forall|x: int, y: int|
        0 <= x < dim && 0 <= y < dim ==> #[trigger] matrix.cell(x, y) == (modules[y][x] == 1)
}

/// The bits `bits`, and `false` behind them, `n` in all.
pub open spec fn padded(bits: Seq<bool>, n: nat) -> Seq<bool> {
    Seq::new(n, |k: int| bit_or_padding(bits, k))
}

/// The position adjustment patterns of a row of centers keep the shape of the symbol.
pub proof fn lemma_align_row_square(g: Seq<Seq<i8>>, centers: Seq<usize>, cy: int, kx: nat, dim: int)
    requires
        square(g, dim),
    ensures
        square(align_row(g, centers, cy, kx), dim),
    decreases kx,
{
    if kx > 0 {
        lemma_align_row_square(g, centers, cy, (kx - 1) as nat, dim);
    }
}

/// The position adjustment patterns keep the shape of the symbol.
pub proof fn lemma_align_rows_square(g: Seq<Seq<i8>>, centers: Seq<usize>, ky: nat, dim: int)
    requires
        square(g, dim),
    ensures
        square(align_rows(g, centers, ky), dim),
    decreases ky,
{
    if ky > 0 {
        lemma_align_rows_square(g, centers, (ky - 1) as nat, dim);
        lemma_align_row_square(
            align_rows(g, centers, (ky - 1) as nat),
            centers,
            centers[ky - 1] as int,
            centers.len(),
            dim,
        );
    }
}

/// The patterns and the information of a symbol have the shape of the symbol.
pub proof fn lemma_patterns_square(
    number: int,
    centers: Seq<usize>,
    level_bits: u32,
    mask_pattern: int,
)
    requires
        number >= 1,
    ensures
        square(function_patterns(number, centers, level_bits, mask_pattern), 4 * number + 17),
{
    let dim = 4 * number + 17;
    let g = dark_dot(finders_and_separators(blank(dim as nat), dim), dim);
    assert(square(g, dim));
    lemma_align_rows_square(g, centers, centers.len(), dim);
}

/// The cell at place `r` of the pair of columns `p` lies in the symbol and outside
/// column 6, and is found again by its pair and its place.
pub proof fn lemma_cell_at_turn(dim: int, p: int, r: int)
    requires
        dim % 2 == 1,
        dim >= 9,
        0 <= p < (dim - 1) / 2,
        0 <= r < 2 * dim,
    ensures
        ({
            let (x, y) = cell_at_turn(dim, p, r);
            &&& 0 <= x < dim
            &&& 0 <= y < dim
            &&& x != 6
            &&& pair_of(dim, x) == p
            &&& turn_of(dim, x, y) == r
        }),
{
}

/// The bits that are read from the first `r` cells of a pair of columns of a symbol are
/// the bits that were laid into them.
pub proof fn lemma_read_in_pair(
    g: Seq<Seq<i8>>,
    bits: Seq<bool>,
    mask_pattern: int,
    matrix: BitMatrix,
    p: int,
    r: nat,
)
    requires
        square(g, matrix.spec_height()),
        matrix.spec_height() % 2 == 1,
        matrix.spec_height() >= 9,
        0 <= mask_pattern < 8,
        shows_modules(
            matrix,
            overlay(g, data_at(g, bits, mask_pattern, matrix.spec_height())),
            matrix.spec_height(),
        ),
        0 <= p < (matrix.spec_height() - 1) / 2,
        r <= 2 * matrix.spec_height(),
    ensures
        read_in_pair(g, matrix, false, mask_pattern, p, r) == Seq::new(
            empty_in_pair(g, matrix.spec_height(), p, r),
            |j: int| bit_or_padding(bits, empty_in_pairs(g, matrix.spec_height(), p as nat) + j),
        ),
    decreases r,
{
    let dim = matrix.spec_height();
    let before = empty_in_pairs(g, dim, p as nat);
    let wanted = Seq::new(
        empty_in_pair(g, dim, p, r),
        |j: int| bit_or_padding(bits, before + j),
    );
    if r == 0 {
        assert(read_in_pair(g, matrix, false, mask_pattern, p, r) =~= wanted);
    } else {
        lemma_read_in_pair(g, bits, mask_pattern, matrix, p, (r - 1) as nat);
        lemma_cell_at_turn(dim, p, r - 1);
        let (x, y) = cell_at_turn(dim, p, r - 1);
        let read = read_in_pair(g, matrix, false, mask_pattern, p, (r - 1) as nat);
        if g[y][x] == -1 {
            let k = before + empty_in_pair(g, dim, p, (r - 1) as nat);
            let laid = overlay(g, data_at(g, bits, mask_pattern, dim));
            assert(data_at(g, bits, mask_pattern, dim)(x, y) is Some);
            assert(matrix.cell(x, y) == (laid[y][x] == 1));
            assert((matrix.cell(x, y) != data_mask_bit(mask_pattern, x, y)) == bit_or_padding(
                bits,
                k as int,
            ));
            assert(read_in_pair(g, matrix, false, mask_pattern, p, r) =~= wanted);
        } else {
            assert(read_in_pair(g, matrix, false, mask_pattern, p, r) =~= wanted);
        }
    }
}

/// The bits that are read from the first `p` pairs of columns of a symbol are the bits
/// that were laid into them.
pub proof fn lemma_read_in_pairs(
    g: Seq<Seq<i8>>,
    bits: Seq<bool>,
    mask_pattern: int,
    matrix: BitMatrix,
    p: nat,
)
    requires
        square(g, matrix.spec_height()),
        matrix.spec_height() % 2 == 1,
        matrix.spec_height() >= 9,
        0 <= mask_pattern < 8,
        shows_modules(
            matrix,
            overlay(g, data_at(g, bits, mask_pattern, matrix.spec_height())),
            matrix.spec_height(),
        ),
        p <= (matrix.spec_height() - 1) / 2,
    ensures
        read_in_pairs(g, matrix, false, mask_pattern, p) == padded(
            bits,
            empty_in_pairs(g, matrix.spec_height(), p),
        ),
    decreases p,
{
    let dim = matrix.spec_height();
    if p == 0 {
        assert(read_in_pairs(g, matrix, false, mask_pattern, p) =~= padded(bits, 0));
    } else {
        lemma_read_in_pairs(g, bits, mask_pattern, matrix, (p - 1) as nat);
        lemma_read_in_pair(g, bits, mask_pattern, matrix, p - 1, (2 * dim) as nat);
        assert(read_in_pairs(g, matrix, false, mask_pattern, p) =~= padded(
            bits,
            empty_in_pairs(g, dim, p),
        ));
    }
}

/// What is laid into the data cells of a symbol is read from them again: the bits that
/// are read from a matrix that shows the symbol are the bits of the data, and `false`
/// for the cells that no bit was left for.
pub proof fn lemma_bits_read_back(
    g: Seq<Seq<i8>>,
    bits: Seq<bool>,
    mask_pattern: int,
    matrix: BitMatrix,
)
    requires
        square(g, matrix.spec_height()),
        matrix.spec_height() % 2 == 1,
        matrix.spec_height() >= 9,
        0 <= mask_pattern < 8,
        shows_modules(
            matrix,
            overlay(g, data_at(g, bits, mask_pattern, matrix.spec_height())),
            matrix.spec_height(),
        ),
    ensures
        read_bits(g, matrix, false, mask_pattern) == padded(
            bits,
            data_room(g, matrix.spec_height()),
        ),
{
    lemma_read_in_pairs(
        g,
        bits,
        mask_pattern,
        matrix,
        ((matrix.spec_height() - 1) / 2) as nat,
    );
}

/// The bytes that the bits of bytes spell are the bytes.
pub proof fn lemma_bytes_of_bits(bytes: Seq<u8>)
    ensures
        bits_bytes(bytes_bits(bytes)) == bytes,
{
    let bits = bytes_bits(bytes);
    assert forall|i: int| 0 <= i < bytes.len() implies bits_bytes(bits)[i] == bytes[i] by {
        let eight = bits.subrange(8 * i, 8 * i + 8);
        assert(eight =~= low_bits(bytes[i] as u32, 8));
        lemma2_to64();
        lemma_low_bits_value(bytes[i] as u32, 8);
    }
    assert(bits_bytes(bits) =~= bytes);
}

/// The codewords that are laid into a symbol are read from it again: where the
/// codewords `codewords` of a version find room in its symbol, the parser reads them from
/// a matrix that shows the symbol.
pub proof fn lemma_codewords_read_back(
    version: Version,
    level_bits: u32,
    mask_pattern: int,
    codewords: Seq<u8>,
    matrix: BitMatrix,
)
    requires
        version.wf(),
        0 <= mask_pattern < 8,
        codewords.len() == version.spec_total_codewords(),
        8 * codewords.len() <= data_room(
            function_patterns(
                version.spec_number(),
                version.spec_centers(),
                level_bits,
                mask_pattern,
            ),
            version.spec_dimension(),
        ),
        shows_modules(
            matrix,
            symbol_modules(
                version.spec_number(),
                version.spec_centers(),
                level_bits,
                mask_pattern,
                bytes_bits(codewords),
            ),
            version.spec_dimension(),
        ),
    ensures
        BitMatrixParser::spec_codewords(matrix, false, version, level_bits, mask_pattern as u32)
            == Some(codewords),
{
    let dim = version.spec_dimension();
    let g = function_patterns(
        version.spec_number(),
        version.spec_centers(),
        level_bits,
        mask_pattern,
    );
    let bits = bytes_bits(codewords);
    lemma_patterns_square(version.spec_number(), version.spec_centers(), level_bits, mask_pattern);
    lemma_bits_read_back(g, bits, mask_pattern, matrix);
    let read = read_bits(g, matrix, false, mask_pattern);
    assert(read.subrange(0, 8 * codewords.len() as int) =~= bits);
    lemma_bytes_of_bits(codewords);
}

/// The codewords that the encoder puts in turn go back to their blocks: block `k` of
/// the codewords of a symbol gets its data codewords and, behind them, its error
/// correction codewords.
pub proof fn lemma_blocks_get_their_codewords(
    bytes: Seq<u8>,
    total: int,
    data: int,
    blocks: int,
    k: int,
)
    requires
        shareable(total, data, blocks),
        0 <= total,
        bytes.len() == data,
        0 <= k < blocks,
        interleaved(bytes, total, data, blocks) is Some,
    ensures
        interleaved(bytes, total, data, blocks)->Some_0.len() == total,
        block_codewords(interleaved(bytes, total, data, blocks)->Some_0, total, data, blocks, k)
            == block_data(bytes, total, data, blocks, k) + narrowed(
            block_parity(bytes, total, data, blocks, k)->Ok_0,
        ),
{
    lemma_shareable(total, data, blocks);
    lemma_block_offsets(total, data, blocks, k);
    let shorter = data / blocks;
    let first_longer = short_blocks(total, blocks);
    let ec = block_ec_len(total, data, blocks);
    let rows = Seq::new(blocks as nat, |b: int| block_data(bytes, total, data, blocks, b));
    let checks = Seq::new(
        blocks as nat,
        |b: int| narrowed(block_parity(bytes, total, data, blocks, b)->Ok_0),
    );
    let front = in_turn(rows, shorter, first_longer);
    let back = in_turn(checks, ec, blocks);
    let c = interleaved(bytes, total, data, blocks)->Some_0;
    assert(c == front + back);
    assert(front.len() == data);
    assert(back.len() == ec * blocks);
    let len = block_data_len(total, data, blocks, k);
    let own = block_data(bytes, total, data, blocks, k);
    assert(block_parity(bytes, total, data, blocks, k) is Ok);
    let check = narrowed(block_parity(bytes, total, data, blocks, k)->Ok_0);
    assert(own.len() == len);
    assert(check.len() == ec);
    let got = block_codewords(c, total, data, blocks, k);
    assert forall|i: int| 0 <= i < len + ec implies got[i] == (own + check)[i] by {
        if i < len {
            lemma_places(total, data, blocks, k, i);
            let place = data_place(total, data, blocks, k, i);
            assert(c[place] == front[place]);
            if i < shorter {
                lemma_table_place(i, k, blocks);
                assert((i + 1) * blocks <= shorter * blocks) by (nonlinear_arith)
                    requires
                        i + 1 <= shorter,
                        blocks >= 1,
                ;
                assert(front[place] == rows[k][i]);
            } else {
                assert(front[place] == rows[k][shorter]);
            }
        } else {
            let j = i - len;
            lemma_places(total, data, blocks, k, j);
            let place = j * blocks + k;
            lemma_table_place(j, k, blocks);
            assert((j + 1) * blocks <= ec * blocks) by (nonlinear_arith)
                requires
                    j + 1 <= ec,
                    blocks >= 1,
            ;
            assert(c[data + place] == back[place]);
            assert(back[place] == checks[k][j]);
        }
    }
    assert(got =~= own + check);
}

/// A block that the encoder has made is repaired to its data codewords: block `k` of the
/// codewords that the encoder puts in turn gives the data codewords of block `k`.
pub proof fn lemma_block_is_repaired(bytes: Seq<u8>, total: int, data: int, blocks: int, k: int)
    requires
        shareable(total, data, blocks),
        0 <= total,
        bytes.len() == data,
        0 <= k < blocks,
        interleaved(bytes, total, data, blocks) is Some,
    ensures
        corrected_block(
            block_codewords(interleaved(bytes, total, data, blocks)->Some_0, total, data, blocks, k),
            block_data_len(total, data, blocks, k),
        ) == Some(block_data(bytes, total, data, blocks, k)),
{
    reveal(corrected_block);
    lemma_blocks_get_their_codewords(bytes, total, data, blocks, k);
    lemma_shareable(total, data, blocks);
    lemma_block_offsets(total, data, blocks, k);
    let own = block_data(bytes, total, data, blocks, k);
    let ec = block_ec_len(total, data, blocks);
    assert(block_parity(bytes, total, data, blocks, k) is Ok);
    let parity = block_parity(bytes, total, data, blocks, k)->Ok_0;
    let block = own + narrowed(parity);
    assert(qr_elements(widened(own)));
    lemma_parity_elements(widened(own), ec as nat);
    lemma_encoded_block_is_left(widened(own), ec as nat);
    assert(widened(block) =~= widened(own) + parity) by {
        assert forall|i: int| 0 <= i < parity.len() implies (#[trigger] parity[i] as u8) as u32
            == parity[i] by {
            assert(parity[i] < QR_SIZE);
        }
    }
    assert(qr_field() == FieldSpec { primitive: QR_PRIMITIVE, size: QR_SIZE, base: 0 });
    let repaired = widened(own) + parity;
    assert(Seq::new(own.len(), |i: int| repaired[i] as u8) =~= own);
}

/// The first `k` blocks that the encoder has made are repaired to the data codewords
/// that they hold between them.
pub proof fn lemma_blocks_are_repaired(
    bytes: Seq<u8>,
    total: int,
    data: int,
    blocks: int,
    k: nat,
)
    requires
        shareable(total, data, blocks),
        0 <= total,
        bytes.len() == data,
        k <= blocks,
        interleaved(bytes, total, data, blocks) is Some,
    ensures
        corrected_upto(interleaved(bytes, total, data, blocks)->Some_0, total, data, blocks, k)
            == Some(bytes.subrange(0, block_offset(total, data, blocks, k as int))),
        0 <= block_offset(total, data, blocks, k as int) <= data,
    decreases k,
{
    lemma_shareable(total, data, blocks);
    if k == 0 {
        assert(bytes.subrange(0, 0) =~= Seq::<u8>::empty());
    } else {
        lemma_blocks_are_repaired(bytes, total, data, blocks, (k - 1) as nat);
        lemma_block_is_repaired(bytes, total, data, blocks, k - 1);
        lemma_block_offsets(total, data, blocks, k - 1);
        let from = block_offset(total, data, blocks, k - 1);
        let to = block_offset(total, data, blocks, k as int);
        assert(bytes.subrange(0, from) + block_data(bytes, total, data, blocks, k - 1)
            =~= bytes.subrange(0, to));
    }
}

/// What the encoder makes of the data codewords of a symbol, the decoder takes back:
/// the codewords that the encoder shares among the blocks, gives their error correction
/// and puts in turn are repaired, block by block, to the data codewords.
pub proof fn lemma_data_codewords_come_back(bytes: Seq<u8>, total: int, data: int, blocks: int)
    requires
        shareable(total, data, blocks),
        0 <= total,
        bytes.len() == data,
        interleaved(bytes, total, data, blocks) is Some,
    ensures
        corrected_upto(
            interleaved(bytes, total, data, blocks)->Some_0,
            total,
            data,
            blocks,
            blocks as nat,
        ) == Some(bytes),
{
    lemma_shareable(total, data, blocks);
    lemma_blocks_are_repaired(bytes, total, data, blocks, blocks as nat);
    assert(bytes.subrange(0, data) =~= bytes);
}

} // verus!
