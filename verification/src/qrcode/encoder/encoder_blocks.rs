use crate::common::bit_array::{bits_value, lemma_bits_value_bound, BitArray};
use crate::common::bit_source::bytes_bits;
use crate::common::reedsolomon::generic_gf::GenericGFEnum;
use crate::common::reedsolomon::reed_solomon_encoder::{rs_parity, ReedSolomonEncoder};
use crate::error::{Error, ErrorKind};
use crate::qrcode::encoder::block_pair::BlockPair;
use crate::qrcode::encoder::encoder::Encoder;
use vstd::arithmetic::div_mod::{lemma_fundamental_div_mod, lemma_fundamental_div_mod_converse};
use vstd::arithmetic::power2::lemma2_to64;
use vstd::prelude::*;

verus! {

/// The codewords as field elements.
pub open spec fn widened(s: Seq<u8>) -> Seq<u32> {
    Seq::new(s.len(), |i: int| s[i] as u32)
}

/// The field elements as codewords.
pub open spec fn narrowed(s: Seq<u32>) -> Seq<u8> {
    Seq::new(s.len(), |i: int| s[i] as u8)
}

/// The bytes that the bits spell, eight bits for each, the highest first.
pub open spec fn bits_bytes(bits: Seq<bool>) -> Seq<u8> {
    Seq::new(bits.len() / 8, |i: int| bits_value(bits.subrange(8 * i, 8 * i + 8)) as u8)
}

/// The number of blocks of the shorter kind, where `total` codewords are shared among
/// `blocks` blocks.
pub open spec fn short_blocks(total: int, blocks: int) -> int {
    blocks - total % blocks
}

/// Whether `total` codewords, `data` of them data, can be shared among `blocks` blocks:
/// the blocks have the same number of error correction codewords, at least one, and at
/// least one data codeword each, and as many blocks take one data codeword more as take
/// one codeword more.
pub open spec fn shareable(total: int, data: int, blocks: int) -> bool {
    &&& blocks >= 1
    &&& data / blocks >= 1
    &&& total / blocks > data / blocks
    &&& data % blocks == total % blocks
}

/// The number of data codewords of block `k`.
pub open spec fn block_data_len(total: int, data: int, blocks: int, k: int) -> int {
    if k < short_blocks(total, blocks) {
        data / blocks
    } else {
        data / blocks + 1
    }
}

/// The number of error correction codewords of each block.
pub open spec fn block_ec_len(total: int, data: int, blocks: int) -> int {
    total / blocks - data / blocks
}

/// The place of the first data codeword of block `k` among the data codewords.
pub open spec fn block_offset(total: int, data: int, blocks: int, k: int) -> int {
    k * (data / blocks) + if k > short_blocks(total, blocks) {
        k - short_blocks(total, blocks)
    } else {
        0
    }
}

/// The data codewords of block `k`.
pub open spec fn block_data(bytes: Seq<u8>, total: int, data: int, blocks: int, k: int) -> Seq<u8> {
    bytes.subrange(
        block_offset(total, data, blocks, k),
        block_offset(total, data, blocks, k) + block_data_len(total, data, blocks, k),
    )
}

/// The `ec` error correction codewords of the data codewords of one block, over the
/// field of the QR code. A block without data is refused, and so are no error correction
/// codewords and more than 256 of them.
pub open spec fn qr_parity(data: Seq<u8>, ec: int) -> Result<Seq<u32>, ErrorKind> {
    if data.len() >= 1 && 1 <= ec <= 256 {
        rs_parity(0x011D, 256, 0, widened(data), ec as nat)
    } else {
        Err(ErrorKind::IllegalArgument)
    }
}

/// The error correction codewords of block `k`.
pub open spec fn block_parity(bytes: Seq<u8>, total: int, data: int, blocks: int, k: int) -> Result<
    Seq<u32>,
    ErrorKind,
> {
    qr_parity(block_data(bytes, total, data, blocks, k), block_ec_len(total, data, blocks))
}

/// The codeword at place `j` where the rows are taken in turn: the first codeword of
/// every row, then the second of every row and so on. The first `first` rows have `len`
/// codewords, the others one more.
pub open spec fn in_turn_at(rows: Seq<Seq<u8>>, len: int, first: int, j: int) -> u8 {
    if j < len * rows.len() {
        rows[j % (rows.len() as int)][j / (rows.len() as int)]
    } else {
        rows[first + (j - len * rows.len())][len]
    }
}

/// The codewords of the rows taken in turn.
pub open spec fn in_turn(rows: Seq<Seq<u8>>, len: int, first: int) -> Seq<u8> {
    Seq::new(
        (len * rows.len() + (rows.len() - first)) as nat,
        |j: int| in_turn_at(rows, len, first, j),
    )
}

/// The data codewords, or the error correction codewords, of the blocks.
pub open spec fn rows_of(blocks: Seq<BlockPair>, ec: bool) -> Seq<Seq<u8>> {
    Seq::new(
        blocks.len(),
        |k: int|
            if ec {
                blocks[k].spec_error_correction_bytes()
            } else {
                blocks[k].spec_data_bytes()
            },
    )
}

/// The codewords of the symbol, or `None` where the error correction codewords of a block
/// cannot be had: the data codewords of the blocks in turn, then their error correction
/// codewords in turn.
pub open spec fn interleaved(bytes: Seq<u8>, total: int, data: int, blocks: int) -> Option<Seq<u8>> {
    if forall|k: int| 0 <= k < blocks ==> (#[trigger] block_parity(bytes, total, data, blocks, k)) is Ok {
        Some(
            in_turn(
                Seq::new(blocks as nat, |k: int| block_data(bytes, total, data, blocks, k)),
                data / blocks,
                short_blocks(total, blocks),
            ) + in_turn(
                Seq::new(
                    blocks as nat,
                    |k: int| narrowed(block_parity(bytes, total, data, blocks, k)->Ok_0),
                ),
                block_ec_len(total, data, blocks),
                blocks,
            ),
        )
    } else {
        None
    }
}

/// What follows where codewords can be shared among blocks.
pub proof fn lemma_shareable(total: int, data: int, blocks: int)
    requires
        shareable(total, data, blocks),
        0 <= data,
        0 <= total,
    ensures
        0 < short_blocks(total, blocks) <= blocks,
        data == (data / blocks) * blocks + (blocks - short_blocks(total, blocks)),
        total == data + block_ec_len(total, data, blocks) * blocks,
        block_offset(total, data, blocks, blocks) == data,
        data < total,
        total / blocks + 1 <= total || total % blocks == 0,
        total / blocks <= total,
{
    lemma_fundamental_div_mod(data, blocks);
    lemma_fundamental_div_mod(total, blocks);
    let d1 = data / blocks;
    let t1 = total / blocks;
    assert(blocks * d1 == d1 * blocks) by (nonlinear_arith);
    assert(blocks * t1 == t1 * blocks) by (nonlinear_arith);
    assert((t1 - d1) * blocks == t1 * blocks - d1 * blocks) by (nonlinear_arith);
    assert((t1 - d1) * blocks >= blocks) by (nonlinear_arith)
        requires
            t1 - d1 >= 1,
            blocks >= 1,
    ;
    assert(t1 * blocks >= t1) by (nonlinear_arith)
        requires
            t1 >= 0,
            blocks >= 1,
    ;
}

/// The blocks lie one behind the other.
pub proof fn lemma_block_offsets(total: int, data: int, blocks: int, k: int)
    requires
        shareable(total, data, blocks),
        0 <= data,
        0 <= total,
        0 <= k < blocks,
    ensures
        0 <= block_offset(total, data, blocks, k),
        block_offset(total, data, blocks, k + 1) == block_offset(total, data, blocks, k)
            + block_data_len(total, data, blocks, k),
        block_offset(total, data, blocks, k + 1) <= data,
{
    lemma_shareable(total, data, blocks);
    let d1 = data / blocks;
    assert((k + 1) * d1 == k * d1 + d1) by (nonlinear_arith);
    assert(k * d1 >= 0) by (nonlinear_arith)
        requires
            k >= 0,
            d1 >= 0,
    ;
    assert((k + 1) * d1 <= blocks * d1) by (nonlinear_arith)
        requires
            k + 1 <= blocks,
            d1 >= 0,
    ;
    assert(blocks * d1 == d1 * blocks) by (nonlinear_arith);
}

/// Row `i` and column `b` of a table with `blocks` columns are found again in the number
/// `i * blocks + b`.
pub proof fn lemma_table_place(i: int, b: int, blocks: int)
    requires
        0 <= b < blocks,
        0 <= i,
    ensures
        (i * blocks + b) / blocks == i,
        (i * blocks + b) % blocks == b,
        i * blocks >= 0,
        (i + 1) * blocks == i * blocks + blocks,
{
    assert(i * blocks >= 0) by (nonlinear_arith)
        requires
            i >= 0,
            blocks >= 0,
    ;
    assert((i + 1) * blocks == i * blocks + blocks) by (nonlinear_arith);
    lemma_fundamental_div_mod_converse(i * blocks + b, blocks, i, b);
}

impl Encoder {
    /// The greatest number of codewords that are shared among blocks.
    pub const MAX_CODEWORDS: usize = 0xFFFF;

    /// The codewords of the symbol: the data codewords that `bits` spell are shared among
    /// the blocks, each block gets its error correction codewords, and the codewords of
    /// the blocks are taken in turn, first the data, then the error correction. The bits
    /// must fill the data codewords, and the codewords must be shareable among the
    /// blocks.
    pub fn interleave_with_ec_bytes(
        bits: &BitArray,
        num_total_bytes: usize,
        num_data_bytes: usize,
        num_rs_blocks: usize,
    ) -> (r: Result<BitArray, Error>)
        requires
            bits.wf(),
            num_total_bytes <= Encoder::MAX_CODEWORDS,
        ensures
            r matches Ok(result) ==> result.wf() && result.clean(),
            r matches Err(e) ==> e is WriterException,
            match Encoder::spec_interleave(
                bits@,
                num_total_bytes as int,
                num_data_bytes as int,
                num_rs_blocks as int,
            ) {
                Some(codewords) => r matches Ok(result) && result@ == bytes_bits(codewords),
                None => r is Err,
            },
    {
        // The bits must fill the data codewords.
        if num_data_bytes > num_total_bytes || bits.get_size() != 8 * num_data_bytes {
            return Err(
                Error::WriterException("Number of bits and data bytes does not match".to_owned()),
            );
        }
        if num_rs_blocks == 0 {
            return Err(Error::WriterException("No blocks".to_owned()));
        }
        let d1: usize = num_data_bytes / num_rs_blocks;
        let t1: usize = num_total_bytes / num_rs_blocks;
        if d1 < 1 || t1 <= d1 || num_data_bytes % num_rs_blocks != num_total_bytes % num_rs_blocks {
            return Err(Error::WriterException("Data bytes does not match offset".to_owned()));
        }
        let ghost total = num_total_bytes as int;
        let ghost data = num_data_bytes as int;
        let ghost nb = num_rs_blocks as int;
        let ghost bytes = bits_bytes(bits@);
        proof {
            lemma_shareable(total, data, nb);
        }
        let blocks = match Encoder::share_among_blocks(
            bits,
            num_total_bytes,
            num_data_bytes,
            num_rs_blocks,
        ) {
            Ok(blocks) => blocks,
            Err(e) => {
                return Err(e);
            },
        };
        let g1: usize = num_rs_blocks - num_total_bytes % num_rs_blocks;
        let mut out: Vec<u8> = Vec::new();
        Encoder::take_in_turn(&blocks, false, d1, g1, &mut out);
        Encoder::take_in_turn(&blocks, true, t1 - d1, num_rs_blocks, &mut out);
        proof {
            let data_rows = Seq::new(nb as nat, |k: int| block_data(bytes, total, data, nb, k));
            let ec_rows = Seq::new(
                nb as nat,
                |k: int| narrowed(block_parity(bytes, total, data, nb, k)->Ok_0),
            );
            assert(rows_of(blocks@, false) =~= data_rows);
            assert(rows_of(blocks@, true) =~= ec_rows) by {
                assert forall|k: int| 0 <= k < nb implies rows_of(blocks@, true)[k] == ec_rows[k] by {
                    let e = blocks@[k].spec_error_correction_bytes();
                    assert(block_parity(bytes, total, data, nb, k) == Ok::<Seq<u32>, ErrorKind>(
                        widened(e),
                    ));
                    assert(narrowed(widened(e)) =~= e);
                }
            }
            assert(Seq::<u8>::empty() + in_turn(data_rows, d1 as int, g1 as int) =~= in_turn(
                data_rows,
                d1 as int,
                g1 as int,
            ));
        }
        let mut result = BitArray::new();
        proof {
            assert(out@.len() <= 2 * Encoder::MAX_CODEWORDS) by {
                assert((t1 - d1) * nb + (nb - nb) == total - data);
            }
        }
        Encoder::append_byte_values(&out, &mut result);
        proof {
            assert(Seq::<bool>::empty() + bytes_bits(out@) =~= bytes_bits(out@));
            assert(result@ =~= bytes_bits(out@));
        }
        Ok(result)
    }

    /// The codewords of the symbol whose data codewords the bits spell, or `None` where
    /// the bits do not fill the data codewords, where the codewords cannot be shared
    /// among the blocks, or where the error correction codewords of a block cannot be
    /// had.
    pub open spec fn spec_interleave(bits: Seq<bool>, total: int, data: int, blocks: int) -> Option<
        Seq<u8>,
    > {
        if data > total || bits.len() != 8 * data || !shareable(total, data, blocks) {
            None
        } else {
            interleaved(bits_bytes(bits), total, data, blocks)
        }
    }

    /// The blocks of the symbol: the data codewords that `bits` spell, shared among them,
    /// each block with its error correction codewords.
    pub fn share_among_blocks(
        bits: &BitArray,
        num_total_bytes: usize,
        num_data_bytes: usize,
        num_rs_blocks: usize,
    ) -> (r: Result<Vec<BlockPair>, Error>)
        requires
            bits.wf(),
            num_total_bytes <= Encoder::MAX_CODEWORDS,
            bits@.len() == 8 * num_data_bytes,
            shareable(num_total_bytes as int, num_data_bytes as int, num_rs_blocks as int),
        ensures
            r is Ok <==> forall|k: int|
                0 <= k < num_rs_blocks ==> (#[trigger] block_parity(
                    bits_bytes(bits@),
                    num_total_bytes as int,
                    num_data_bytes as int,
                    num_rs_blocks as int,
                    k,
                )) is Ok,
            r matches Err(e) ==> e is WriterException,
            r matches Ok(blocks) ==> {
                &&& blocks@.len() == num_rs_blocks
                &&& forall|k: int|
                    0 <= k < num_rs_blocks ==> (#[trigger] blocks@[k]).spec_data_bytes()
                        == block_data(
                        bits_bytes(bits@),
                        num_total_bytes as int,
                        num_data_bytes as int,
                        num_rs_blocks as int,
                        k,
                    )
                &&& forall|k: int|
                    0 <= k < num_rs_blocks ==> (#[trigger] blocks@[k]).spec_data_bytes().len()
                        == block_data_len(
                        num_total_bytes as int,
                        num_data_bytes as int,
                        num_rs_blocks as int,
                        k,
                    )
                &&& forall|k: int|
                    0 <= k < num_rs_blocks ==> block_parity(
                        bits_bytes(bits@),
                        num_total_bytes as int,
                        num_data_bytes as int,
                        num_rs_blocks as int,
                        k,
                    ) == Ok::<Seq<u32>, ErrorKind>(
                        widened((#[trigger] blocks@[k]).spec_error_correction_bytes()),
                    )
                &&& forall|k: int|
                    0 <= k < num_rs_blocks ==> (
                    #[trigger] blocks@[k]).spec_error_correction_bytes().len() == block_ec_len(
                        num_total_bytes as int,
                        num_data_bytes as int,
                        num_rs_blocks as int,
                    )
            },
    {
        let ghost total = num_total_bytes as int;
        let ghost data = num_data_bytes as int;
        let ghost nb = num_rs_blocks as int;
        let ghost bytes = bits_bytes(bits@);
        proof {
            lemma_shareable(total, data, nb);
        }
        let mut data_bytes_offset: usize = 0;
        let mut blocks: Vec<BlockPair> = Vec::new();
        let mut i: usize = 0;
        while i < num_rs_blocks
            invariant
                bits.wf(),
                bits@.len() == 8 * data,
                total == num_total_bytes,
                data == num_data_bytes,
                nb == num_rs_blocks,
                total <= Encoder::MAX_CODEWORDS,
                data < total,
                shareable(total, data, nb),
                bytes == bits_bytes(bits@),
                i <= num_rs_blocks,
                blocks@.len() == i,
                data_bytes_offset == block_offset(total, data, nb, i as int),
                data_bytes_offset <= data,
                forall|k: int|
                    0 <= k < i ==> (#[trigger] blocks@[k]).spec_data_bytes() == block_data(
                        bytes,
                        total,
                        data,
                        nb,
                        k,
                    ),
                forall|k: int|
                    0 <= k < i ==> (#[trigger] blocks@[k]).spec_data_bytes().len()
                        == block_data_len(total, data, nb, k),
                forall|k: int|
                    0 <= k < i ==> block_parity(bytes, total, data, nb, k) == Ok::<
                        Seq<u32>,
                        ErrorKind,
                    >(widened((#[trigger] blocks@[k]).spec_error_correction_bytes())),
                forall|k: int|
                    0 <= k < i ==> (#[trigger] blocks@[k]).spec_error_correction_bytes().len()
                        == block_ec_len(total, data, nb),
            decreases num_rs_blocks - i,
        {
            let sizes = match Encoder::get_num_data_bytes_and_num_ec_bytes_for_block_id(
                num_total_bytes,
                num_data_bytes,
                num_rs_blocks,
                i,
            ) {
                Ok(sizes) => sizes,
                Err(e) => {
                    return Err(e);
                },
            };
            let size = sizes.0;
            proof {
                lemma_block_offsets(total, data, nb, i as int);
                lemma_shareable(total, data, nb);
            }
            let mut data_bytes: Vec<u8> = vec![0u8; size];
            bits.to_bytes(8 * data_bytes_offset, &mut data_bytes, 0, size);
            proof {
                let expected = block_data(bytes, total, data, nb, i as int);
                assert(data_bytes@ =~= expected) by {
                    assert forall|k: int| 0 <= k < size implies data_bytes@[k] == expected[k] by {
                        let chunk = bits@.subrange(
                            8 * data_bytes_offset + 8 * k,
                            8 * data_bytes_offset + 8 * k + 8,
                        );
                        assert(data_bytes@[0 + k] == bits_value(chunk));
                        lemma_bits_value_bound(chunk);
                        lemma2_to64();
                        assert(chunk == bits@.subrange(
                            8 * (data_bytes_offset + k),
                            8 * (data_bytes_offset + k) + 8,
                        ));
                    }
                }
            }
            let ec_bytes = match Encoder::generate_ec_bytes(&data_bytes, sizes.1) {
                Ok(ec_bytes) => ec_bytes,
                Err(e) => {
                    proof {
                        assert(!(block_parity(bytes, total, data, nb, i as int) is Ok));
                    }
                    return Err(Error::WriterException("No error correction".to_owned()));
                },
            };
            blocks.push(BlockPair::new(data_bytes, ec_bytes));
            data_bytes_offset += size;
            i += 1;
        }
        proof {
            assert forall|k: int| 0 <= k < num_rs_blocks implies (#[trigger] block_parity(
                bytes,
                total,
                data,
                nb,
                k,
            )) is Ok by {
                assert(block_parity(bytes, total, data, nb, k) == Ok::<Seq<u32>, ErrorKind>(
                    widened(blocks@[k].spec_error_correction_bytes()),
                ));
            }
        }
        Ok(blocks)
    }

    /// Appends the codewords of the blocks in turn: the first codeword of every block,
    /// then the second of every block and so on. The data codewords are taken, or the
    /// error correction codewords where `ec` holds. The first `first` blocks have `len`
    /// such codewords, the others one more.
    pub fn take_in_turn(blocks: &Vec<BlockPair>, ec: bool, len: usize, first: usize, out: &mut Vec<u8>)
        requires
            blocks@.len() >= 1,
            first <= blocks@.len(),
            len <= Encoder::MAX_CODEWORDS,
            len * blocks@.len() <= Encoder::MAX_CODEWORDS,
            forall|k: int| 0 <= k < first ==> (#[trigger] rows_of(blocks@, ec)[k]).len() == len,
            forall|k: int|
                first <= k < blocks@.len() ==> (#[trigger] rows_of(blocks@, ec)[k]).len() == len
                    + 1,
        ensures
            final(out)@ == old(out)@ + in_turn(rows_of(blocks@, ec), len as int, first as int),
    {
        let ghost pre = out@;
        let ghost rows = rows_of(blocks@, ec);
        let nb = blocks.len();
        let longest: usize = if first < nb {
            len + 1
        } else {
            len
        };
        let ghost mut taken: int = 0;
        let mut row: usize = 0;
        while row < longest
            invariant
                rows == rows_of(blocks@, ec),
                nb == blocks@.len(),
                nb >= 1,
                first <= nb,
                len <= Encoder::MAX_CODEWORDS,
                len * nb <= Encoder::MAX_CODEWORDS,
                longest == if first < nb {
                    len + 1
                } else {
                    len as int
                },
                forall|k: int| 0 <= k < first ==> (#[trigger] rows[k]).len() == len,
                forall|k: int| first <= k < nb ==> (#[trigger] rows[k]).len() == len + 1,
                row <= longest,
                taken == if row <= len {
                    row * nb
                } else {
                    len * nb + (nb - first)
                },
                0 <= taken <= len * nb + (nb - first),
                out@.len() == pre.len() + taken,
                forall|j: int| 0 <= j < pre.len() ==> out@[j] == pre[j],
                forall|j: int|
                    0 <= j < taken ==> #[trigger] out@[pre.len() + j] == in_turn_at(
                        rows,
                        len as int,
                        first as int,
                        j,
                    ),
            decreases longest - row,
        {
            let mut b: usize = 0;
            let ghost start = taken;
            proof {
                lemma_table_place(row as int, 0, nb as int);
                assert(row * nb <= len * nb) by (nonlinear_arith)
                    requires
                        row <= len,
                        nb >= 0,
                ;
            }
            while b < nb
                invariant
                    rows == rows_of(blocks@, ec),
                    nb == blocks@.len(),
                    nb >= 1,
                    first <= nb,
                    len <= Encoder::MAX_CODEWORDS,
                    len * nb <= Encoder::MAX_CODEWORDS,
                    forall|k: int| 0 <= k < first ==> (#[trigger] rows[k]).len() == len,
                    forall|k: int| first <= k < nb ==> (#[trigger] rows[k]).len() == len + 1,
                    row <= len,
                    b <= nb,
                    start == row * nb,
                    0 <= start <= len * nb,
                    taken == if row < len {
                        start + b
                    } else if b <= first {
                        start
                    } else {
                        start + (b - first)
                    },
                    0 <= taken <= len * nb + (nb - first),
                    out@.len() == pre.len() + taken,
                    forall|j: int| 0 <= j < pre.len() ==> out@[j] == pre[j],
                    forall|j: int|
                        0 <= j < taken ==> #[trigger] out@[pre.len() + j] == in_turn_at(
                            rows,
                            len as int,
                            first as int,
                            j,
                        ),
                decreases nb - b,
            {
                let codewords = if ec {
                    blocks[b].get_error_correction_bytes()
                } else {
                    blocks[b].get_data_bytes()
                };
                proof {
                    lemma_table_place(row as int, b as int, nb as int);
                    assert(codewords@ == rows[b as int]);
                    if row < len {
                        assert(row * nb + nb <= len * nb) by (nonlinear_arith)
                            requires
                                row < len,
                                nb >= 0,
                        ;
                    }
                }
                if row < codewords.len() {
                    let ghost before = out@;
                    out.push(codewords[row]);
                    proof {
                        assert(in_turn_at(rows, len as int, first as int, taken) == codewords@[row as int]);
                        assert forall|j: int| 0 <= j < taken + 1 implies #[trigger] out@[pre.len()
                            + j] == in_turn_at(rows, len as int, first as int, j) by {
                            if j < taken {
                                assert(out@[pre.len() + j] == before[pre.len() + j]);
                            }
                        }
                        taken = taken + 1;
                    }
                }
                b += 1;
            }
            row += 1;
        }
        proof {
            let tail = in_turn(rows, len as int, first as int);
            assert(taken == tail.len());
            assert(out@ =~= pre + tail) by {
                assert forall|j: int| 0 <= j < out@.len() implies out@[j] == (pre + tail)[j] by {
                    if j >= pre.len() {
                        assert(out@[pre.len() + (j - pre.len())] == in_turn_at(
                            rows,
                            len as int,
                            first as int,
                            j - pre.len(),
                        ));
                    }
                }
            }
        }
    }

    /// The number of data codewords and the number of error correction codewords of the
    /// block numbered `block_id`, where `num_total_bytes` codewords, `num_data_bytes` of
    /// them data, are shared among `num_rs_blocks` blocks.
    pub fn get_num_data_bytes_and_num_ec_bytes_for_block_id(
        num_total_bytes: usize,
        num_data_bytes: usize,
        num_rs_blocks: usize,
        block_id: usize,
    ) -> (r: Result<(usize, usize), Error>)
        requires
            num_data_bytes <= Encoder::MAX_CODEWORDS,
        ensures
            r is Ok <==> (block_id < num_rs_blocks && num_total_bytes / num_rs_blocks
                >= num_data_bytes / num_rs_blocks),
            r matches Ok(sizes) ==> sizes.0 == block_data_len(
                num_total_bytes as int,
                num_data_bytes as int,
                num_rs_blocks as int,
                block_id as int,
            ) && sizes.1 == block_ec_len(
                num_total_bytes as int,
                num_data_bytes as int,
                num_rs_blocks as int,
            ),
            r matches Err(e) ==> e is WriterException,
    {
        if block_id >= num_rs_blocks {
            return Err(Error::WriterException("Block ID too large".to_owned()));
        }
        let num_rs_blocks_in_group2 = num_total_bytes % num_rs_blocks;
        let num_rs_blocks_in_group1 = num_rs_blocks - num_rs_blocks_in_group2;
        let num_total_bytes_in_group1 = num_total_bytes / num_rs_blocks;
        let num_data_bytes_in_group1 = num_data_bytes / num_rs_blocks;
        if num_total_bytes_in_group1 < num_data_bytes_in_group1 {
            return Err(Error::WriterException("EC bytes mismatch".to_owned()));
        }
        let num_ec_bytes_in_group1 = num_total_bytes_in_group1 - num_data_bytes_in_group1;
        if block_id < num_rs_blocks_in_group1 {
            Ok((num_data_bytes_in_group1, num_ec_bytes_in_group1))
        } else {
            Ok((num_data_bytes_in_group1 + 1, num_ec_bytes_in_group1))
        }
    }

    /// The `num_ec_bytes_in_block` error correction codewords of the data codewords of
    /// one block, over the field of the QR code.
    pub fn generate_ec_bytes(data_bytes: &Vec<u8>, num_ec_bytes_in_block: usize) -> (r: Result<
        Vec<u8>,
        Error,
    >)
        requires
            data_bytes@.len() + num_ec_bytes_in_block <= Encoder::MAX_CODEWORDS,
        ensures
            r matches Ok(v) ==> v@.len() == num_ec_bytes_in_block,
            match qr_parity(data_bytes@, num_ec_bytes_in_block as int) {
                Ok(parity) => r matches Ok(v) && widened(v@) == parity,
                Err(kind) => r matches Err(e) && e.spec_kind() == kind,
            },
    {
        let num_data_bytes = data_bytes.len();
        if num_data_bytes == 0 || num_ec_bytes_in_block == 0 || num_ec_bytes_in_block > 256 {
            return Err(Error::IllegalArgumentException("No block to correct".to_owned()));
        }
        let mut to_encode: Vec<u32> = Vec::new();
        let mut i: usize = 0;
        while i < num_data_bytes + num_ec_bytes_in_block
            invariant
                i <= num_data_bytes + num_ec_bytes_in_block,
                num_data_bytes == data_bytes@.len(),
                num_data_bytes + num_ec_bytes_in_block <= Encoder::MAX_CODEWORDS,
                to_encode@.len() == i,
                forall|j: int| 0 <= j < i && j < num_data_bytes ==> to_encode@[j] == data_bytes@[j] as u32,
                forall|j: int| 0 <= j < i ==> #[trigger] to_encode@[j] < 256,
            decreases num_data_bytes + num_ec_bytes_in_block - i,
        {
            if i < num_data_bytes {
                to_encode.push(data_bytes[i] as u32);
            } else {
                to_encode.push(0);
            }
            i += 1;
        }
        let field = GenericGFEnum::QrCodeField256.get();
        let mut encoder = match ReedSolomonEncoder::new(&field) {
            Ok(encoder) => encoder,
            Err(e) => {
                return Err(e);
            },
        };
        let ghost block = to_encode@;
        proof {
            assert(block.subrange(0, num_data_bytes as int) =~= widened(data_bytes@));
        }
        match encoder.encode(&mut to_encode, num_ec_bytes_in_block) {
            Ok(()) => {},
            Err(e) => {
                return Err(e);
            },
        }
        let mut ec_bytes: Vec<u8> = Vec::new();
        let mut k: usize = 0;
        while k < num_ec_bytes_in_block
            invariant
                k <= num_ec_bytes_in_block,
                to_encode@.len() == num_data_bytes + num_ec_bytes_in_block,
                num_data_bytes + num_ec_bytes_in_block <= Encoder::MAX_CODEWORDS,
                ec_bytes@.len() == k,
                forall|j: int|
                    num_data_bytes <= j < to_encode@.len() ==> #[trigger] to_encode@[j] < 256,
                forall|j: int|
                    0 <= j < k ==> #[trigger] ec_bytes@[j] as u32 == to_encode@[num_data_bytes + j],
            decreases num_ec_bytes_in_block - k,
        {
            ec_bytes.push(to_encode[num_data_bytes + k] as u8);
            k += 1;
        }
        proof {
            let parity = qr_parity(data_bytes@, num_ec_bytes_in_block as int)->Ok_0;
            assert(widened(ec_bytes@) =~= parity) by {
                assert forall|j: int| 0 <= j < num_ec_bytes_in_block implies widened(ec_bytes@)[j]
                    == parity[j] by {
                    assert(ec_bytes@[j] as u32 == to_encode@[num_data_bytes + j]);
                }
            }
        }
        Ok(ec_bytes)
    }
}

} // verus!
