#![allow(non_snake_case)]

use crate::error::Error;
use crate::qrcode::decoder::error_correction_level::ErrorCorrectionLevel;
use crate::qrcode::decoder::version::Version;
use crate::qrcode::encoder::encoder_blocks::{
    block_data_len, block_ec_len, lemma_shareable, shareable, short_blocks,
};
use vstd::prelude::*;

verus! {

/// The codewords of one block of a symbol, its data codewords first and its error
/// correction codewords behind them.
pub struct DataBlock {
    numDataCodewords: usize,
    codewords: Vec<u8>,
}

/// The place among the codewords of a symbol of data codeword `i` of block `k`. The first
/// data codewords of all blocks come first, then the second of all blocks and so on; the
/// last codewords of the longer blocks follow.
pub open spec fn data_place(total: int, data: int, blocks: int, k: int, i: int) -> int {
    if i < data / blocks {
        i * blocks + k
    } else {
        (data / blocks) * blocks + (k - short_blocks(total, blocks))
    }
}

/// The place among the codewords of a symbol of error correction codeword `i` of block
/// `k`: behind the data codewords, and in turn as these.
pub open spec fn ec_place(data: int, blocks: int, k: int, i: int) -> int {
    data + i * blocks + k
}

/// The codewords of block `k` of a symbol with the codewords `c`.
pub open spec fn block_codewords(c: Seq<u8>, total: int, data: int, blocks: int, k: int) -> Seq<u8> {
    let len = block_data_len(total, data, blocks, k);
    Seq::new(
        (len + block_ec_len(total, data, blocks)) as nat,
        |i: int|
            if i < len {
                c[data_place(total, data, blocks, k, i)]
            } else {
                c[ec_place(data, blocks, k, i - len)]
            },
    )
}

/// The places of the codewords of a block lie among the codewords of the symbol: those
/// of its data among the data, those of its error correction behind them.
pub proof fn lemma_places(total: int, data: int, blocks: int, k: int, i: int)
    requires
        shareable(total, data, blocks),
        0 <= data,
        0 <= total,
        0 <= k < blocks,
        0 <= i,
    ensures
        i < block_data_len(total, data, blocks, k) ==> 0 <= data_place(total, data, blocks, k, i)
            < data,
        i < block_ec_len(total, data, blocks) ==> data <= ec_place(data, blocks, k, i) < total,
{
    lemma_shareable(total, data, blocks);
    let d1 = data / blocks;
    let ec = block_ec_len(total, data, blocks);
    assert(i * blocks >= 0) by (nonlinear_arith)
        requires
            i >= 0,
            blocks >= 1,
    ;
    if i < d1 {
        assert((i + 1) * blocks <= d1 * blocks) by (nonlinear_arith)
            requires
                i + 1 <= d1,
                blocks >= 1,
        ;
        assert((i + 1) * blocks == i * blocks + blocks) by (nonlinear_arith);
    }
    if i < ec {
        assert((i + 1) * blocks <= ec * blocks) by (nonlinear_arith)
            requires
                i + 1 <= ec,
                blocks >= 1,
        ;
        assert((i + 1) * blocks == i * blocks + blocks) by (nonlinear_arith);
    }
}

impl DataBlock {
    pub closed spec fn spec_num_data_codewords(&self) -> int {
        self.numDataCodewords as int
    }

    pub closed spec fn spec_codewords(&self) -> Seq<u8> {
        self.codewords@
    }

    /// The codewords of a symbol of the given version and level, block by block. The
    /// codewords of the blocks stand in turn in a symbol; here each block gets its own
    /// back. Codewords that are not as many as the version has are refused, and so is a
    /// version whose codewords cannot be shared among its blocks.
    pub fn getDataBlocks(
        rawCodewords: &Vec<u8>,
        version: &Version,
        ecLevel: &ErrorCorrectionLevel,
    ) -> (r: Result<Vec<DataBlock>, Error>)
        requires
            version.wf(),
        ensures
            ({
                let total = version.spec_total_codewords();
                let data = version.spec_data_codewords(ecLevel.spec_ordinal() as int);
                let blocks = version.spec_ec_blocks()[ecLevel.spec_ordinal() as int].spec_num_blocks() as int;
                &&& r is Ok <==> (rawCodewords@.len() == total && shareable(total, data, blocks))
                &&& r matches Ok(b) ==> b@.len() == blocks && forall|k: int|
                    0 <= k < blocks ==> (#[trigger] b@[k]).spec_num_data_codewords()
                        == block_data_len(total, data, blocks, k) && b@[k].spec_codewords()
                        == block_codewords(rawCodewords@, total, data, blocks, k)
                &&& r matches Err(e) ==> e is IllegalArgumentException
            }),
    {
        let total = version.get_total_codewords();
        if rawCodewords.len() != total {
            return Err(
                Error::IllegalArgumentException("Not the codewords of the version".to_owned()),
            );
        }
        let ecBlocks = version.get_ec_blocks_for_level(ecLevel);
        let blocks = ecBlocks.get_num_blocks();
        let data = total - ecBlocks.get_total_ec_codewords();
        let shorter = data / blocks;
        if shorter < 1 || total / blocks <= shorter || data % blocks != total % blocks {
            return Err(
                Error::IllegalArgumentException("The blocks do not share the codewords".to_owned()),
            );
        }
        let first_longer = blocks - total % blocks;
        let ec = total / blocks - shorter;
        proof {
            lemma_shareable(total as int, data as int, blocks as int);
        }
        let mut result: Vec<DataBlock> = Vec::new();
        let mut k: usize = 0;
        while k < blocks
            invariant
                k <= blocks,
                total <= 3706,
                data <= total,
                rawCodewords@.len() == total,
                shareable(total as int, data as int, blocks as int),
                shorter == data / blocks,
                first_longer == short_blocks(total as int, blocks as int),
                ec == block_ec_len(total as int, data as int, blocks as int),
                result@.len() == k,
                forall|j: int|
                    0 <= j < k ==> (#[trigger] result@[j]).spec_num_data_codewords()
                        == block_data_len(total as int, data as int, blocks as int, j)
                        && result@[j].spec_codewords() == block_codewords(
                        rawCodewords@,
                        total as int,
                        data as int,
                        blocks as int,
                        j,
                    ),
            decreases blocks - k,
        {
            let len = if k < first_longer {
                shorter
            } else {
                shorter + 1
            };
            let ghost wanted = block_codewords(
                rawCodewords@,
                total as int,
                data as int,
                blocks as int,
                k as int,
            );
            let mut codewords: Vec<u8> = Vec::new();
            let mut i: usize = 0;
            while i < len
                invariant
                    i <= len,
                    k < blocks,
                    total <= 3706,
                    data <= total,
                    rawCodewords@.len() == total,
                    shareable(total as int, data as int, blocks as int),
                    shorter == data / blocks,
                    first_longer == short_blocks(total as int, blocks as int),
                    len == block_data_len(total as int, data as int, blocks as int, k as int),
                    wanted == block_codewords(
                        rawCodewords@,
                        total as int,
                        data as int,
                        blocks as int,
                        k as int,
                    ),
                    codewords@.len() == i,
                    forall|j: int| 0 <= j < i ==> #[trigger] codewords@[j] == wanted[j],
                decreases len - i,
            {
                proof {
                    lemma_shareable(total as int, data as int, blocks as int);
                    lemma_places(total as int, data as int, blocks as int, k as int, i as int);
                    assert(shorter * blocks <= data) by (nonlinear_arith)
                        requires
                            data == (data / blocks) * blocks + (blocks - first_longer),
                            first_longer <= blocks,
                            shorter == data / blocks,
                    ;
                }
                let place = if i < shorter {
                    i * blocks + k
                } else {
                    shorter * blocks + (k - first_longer)
                };
                codewords.push(rawCodewords[place]);
                i += 1;
            }
            let mut i: usize = 0;
            while i < ec
                invariant
                    i <= ec,
                    k < blocks,
                    total <= 3706,
                    data <= total,
                    rawCodewords@.len() == total,
                    shareable(total as int, data as int, blocks as int),
                    ec == block_ec_len(total as int, data as int, blocks as int),
                    len == block_data_len(total as int, data as int, blocks as int, k as int),
                    wanted == block_codewords(
                        rawCodewords@,
                        total as int,
                        data as int,
                        blocks as int,
                        k as int,
                    ),
                    codewords@.len() == len + i,
                    forall|j: int| 0 <= j < len + i ==> #[trigger] codewords@[j] == wanted[j],
                decreases ec - i,
            {
                proof {
                    lemma_places(total as int, data as int, blocks as int, k as int, i as int);
                    assert(i * blocks >= 0) by (nonlinear_arith)
                        requires
                            i >= 0,
                            blocks >= 1,
                    ;
                }
                codewords.push(rawCodewords[data + i * blocks + k]);
                i += 1;
            }
            proof {
                assert(codewords@ =~= wanted);
            }
            result.push(DataBlock { numDataCodewords: len, codewords });
            k += 1;
        }
        Ok(result)
    }

    /// The number of data codewords at the front of the block.
    pub fn getNumDataCodewords(&self) -> (n: usize)
        ensures
            n == self.spec_num_data_codewords(),
    {
        self.numDataCodewords
    }

    /// The codewords of the block.
    pub fn getCodewords(&self) -> (c: &Vec<u8>)
        ensures
            c@ == self.spec_codewords(),
    {
        &self.codewords
    }
}

} // verus!
