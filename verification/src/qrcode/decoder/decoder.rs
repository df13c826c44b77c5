use crate::common::bit_matrix::BitMatrix;
use crate::common::charset::Charset;
use crate::common::decoder_result::DecoderResult;
use crate::common::reedsolomon::generic_gf::GenericGFEnum;
use crate::common::reedsolomon::reed_solomon_decoder::{rs_decoded, FieldSpec, ReedSolomonDecoder};
use crate::decode_hint_type::DecodeHints;
use crate::error::{Error, ErrorKind};
use crate::qrcode::decoder::bit_matrix_parser::BitMatrixParser;
use crate::qrcode::decoder::data_block::{block_codewords, DataBlock};
use crate::qrcode::decoder::decoded_bit_stream_parser::{parsed, DecodedBitStreamParser, Parsed};
use crate::qrcode::decoder::error_correction_level::ErrorCorrectionLevel;
use crate::qrcode::decoder::version::{Version, Versions};
use crate::qrcode::encoder::encoder_blocks::{
    block_data_len, block_ec_len, block_offset, lemma_block_offsets, lemma_shareable, shareable,
    widened,
};
use vstd::prelude::*;

verus! {

/// Reads the text of a symbol from its modules, once the symbol has been found in an
/// image and its modules have been sampled.
pub struct Decoder {
    versions: Versions,
}

/// The field of the codewords of the QR code.
pub open spec fn qr_field() -> FieldSpec {
    FieldSpec { primitive: 0x011D, size: 256, base: 0 }
}

/// The data codewords of a block after its errors are repaired; the first `data_len` of
/// the codewords of the block are its data. None where the block cannot be repaired.
#[verifier::opaque]
pub open spec fn corrected_block(block: Seq<u8>, data_len: int) -> Option<Seq<u8>> {
    match rs_decoded(qr_field(), widened(block), (block.len() - data_len) as nat) {
        Ok(repaired) => Some(Seq::new(data_len as nat, |i: int| repaired[i] as u8)),
        Err(_) => None,
    }
}

/// The repaired data codewords of the first `k` blocks of a symbol with the codewords
/// `c`, one block behind the other; none where one of the blocks cannot be repaired.
pub open spec fn corrected_upto(c: Seq<u8>, total: int, data: int, blocks: int, k: nat) -> Option<
    Seq<u8>,
>
    decreases k,
{
    if k == 0 {
        Some(Seq::empty())
    } else {
        match corrected_upto(c, total, data, blocks, (k - 1) as nat) {
            None => None,
            Some(before) => match corrected_block(
                block_codewords(c, total, data, blocks, k - 1),
                block_data_len(total, data, blocks, k - 1),
            ) {
                None => None,
                Some(d) => Some(before + d),
            },
        }
    }
}

/// Where the first blocks cannot be repaired, more of them cannot be repaired either.
pub proof fn lemma_corrected_upto(c: Seq<u8>, total: int, data: int, blocks: int, k: nat, n: nat)
    requires
        k <= n,
        corrected_upto(c, total, data, blocks, k) is None,
    ensures
        corrected_upto(c, total, data, blocks, n) is None,
    decreases n,
{
    if k < n {
        lemma_corrected_upto(c, total, data, blocks, k, (n - 1) as nat);
    }
}

/// The level that the two bits of the format information stand for.
pub open spec fn level_of_bits(bits: u32) -> ErrorCorrectionLevel {
    if bits == 0 {
        ErrorCorrectionLevel::M
    } else if bits == 1 {
        ErrorCorrectionLevel::L
    } else if bits == 2 {
        ErrorCorrectionLevel::H
    } else {
        ErrorCorrectionLevel::Q
    }
}

/// What a symbol holds.
pub struct Decoded {
    /// The data codewords, their errors repaired.
    pub bytes: Seq<u8>,
    /// The level of error correction.
    pub level: ErrorCorrectionLevel,
    /// What the data codewords hold.
    pub parsed: Parsed,
}

/// What the modules of a symbol hold, read as they are or mirrored, or the way in which
/// reading them fails. The version and the format information are read first; the
/// codewords are taken from the data cells and handed each to its block; the blocks are
/// repaired; and the text is read from the data codewords of all blocks.
pub open spec fn read_symbol(
    table: Seq<Version>,
    matrix: BitMatrix,
    mirror: bool,
    hint: Option<Charset>,
) -> Result<Decoded, ErrorKind> {
    if !(matrix.spec_width() == matrix.spec_height() && BitMatrixParser::is_dimension(
        matrix.spec_height(),
    )) {
        Err(ErrorKind::Format)
    } else {
        match BitMatrixParser::spec_version(matrix, mirror) {
            None => Err(ErrorKind::Format),
            Some(n) => match BitMatrixParser::spec_format(matrix, mirror) {
                None => Err(ErrorKind::Format),
                Some(format) => {
                    let level = level_of_bits((format >> 3) & 0x03);
                    let version = table[n - 1];
                    match BitMatrixParser::spec_codewords(
                        matrix,
                        mirror,
                        version,
                        level.spec_bits(),
                        format & 0x07,
                    ) {
                        None => Err(ErrorKind::Format),
                        Some(codewords) => {
                            let total = version.spec_total_codewords();
                            let data = version.spec_data_codewords(level.spec_ordinal() as int);
                            let blocks = version.spec_ec_blocks()[level.spec_ordinal() as int].spec_num_blocks() as int;
                            if !shareable(total, data, blocks) {
                                Err(ErrorKind::IllegalArgument)
                            } else {
                                match corrected_upto(
                                    codewords,
                                    total,
                                    data,
                                    blocks,
                                    blocks as nat,
                                ) {
                                    None => Err(ErrorKind::ReedSolomon),
                                    Some(bytes) => match parsed(bytes, n, hint) {
                                        None => Err(ErrorKind::Format),
                                        Some(p) => Ok(Decoded { bytes, level, parsed: p }),
                                    },
                                }
                            }
                        },
                    }
                },
            },
        }
    }
}

impl Decoder {
    #[verifier::type_invariant]
    spec fn inv(&self) -> bool {
        self.versions.wf()
    }

    /// The table of the versions.
    pub closed spec fn spec_versions(&self) -> Versions {
        self.versions
    }

    /// A decoder with the table of the forty versions.
    pub fn new() -> (d: Decoder)
        ensures
            d.spec_versions().wf(),
    {
        Decoder { versions: Versions::new() }
    }

    /// What the modules `bits` hold: what they hold read as they are or, where that
    /// fails, read mirrored; where both fail, the way in which the first reading fails.
    pub open spec fn spec_decode(&self, bits: BitMatrix, hint: Option<Charset>) -> Result<
        Decoded,
        ErrorKind,
    > {
        match read_symbol(self.spec_versions().table(), bits, false, hint) {
            Ok(d) => Ok(d),
            Err(kind) => match read_symbol(self.spec_versions().table(), bits, true, hint) {
                Ok(d) => Ok(d),
                Err(_) => Err(kind),
            },
        }
    }

    /// Whether `r` is the result for what `d` says a symbol holds.
    pub open spec fn describes(r: DecoderResult, d: Decoded) -> bool {
        DecodedBitStreamParser::describes(r, d.bytes, d.level, d.parsed)
    }

    /// Whether `r` is what decoding the modules `bits` gives.
    pub open spec fn gives(
        &self,
        bits: BitMatrix,
        hint: Option<Charset>,
        r: Result<DecoderResult, Error>,
    ) -> bool {
        match self.spec_decode(bits, hint) {
            Ok(d) => r matches Ok(result) && Decoder::describes(result, d),
            Err(kind) => r matches Err(e) && e.spec_kind() == kind,
        }
    }

    /// Whether `m` is the matrix of the rows of `image`.
    pub open spec fn shows(m: BitMatrix, image: Seq<Vec<bool>>) -> bool {
        &&& m.wf()
        &&& m.spec_height() == image.len()
        &&& m.spec_width() == image[0]@.len()
        &&& forall|x: int, y: int|
            0 <= x < m.spec_width() && 0 <= y < m.spec_height() ==> #[trigger] m.cell(x, y)
                == image[y]@[x]
    }

    /// Whether `r` is what decoding the matrix of the rows of `image` gives: an image
    /// that is no matrix is refused.
    pub open spec fn decodes_image(
        &self,
        image: Seq<Vec<bool>>,
        hint: Option<Charset>,
        r: Result<DecoderResult, Error>,
    ) -> bool {
        if BitMatrix::rectangular(image) && BitMatrix::fits(
            image[0]@.len() as int,
            image.len() as int,
        ) {
            exists|m: BitMatrix| Decoder::shows(m, image) && #[trigger] self.gives(m, hint, r)
        } else {
            r matches Err(e) && e is IllegalArgumentException
        }
    }

    /// What the matrix of the rows of `image` holds, read under no hint.
    pub fn decode_image(&self, image: &Vec<Vec<bool>>) -> (r: Result<DecoderResult, Error>)
        ensures
            self.decodes_image(image@, None, r),
    {
        let hints = DecodeHints::build_hints(false, false, false);
        self.decode_image_hints(image, &hints)
    }

    /// What the matrix of the rows of `image` holds. `true` stands for a dark module. An
    /// image that is no matrix is refused.
    pub fn decode_image_hints(&self, image: &Vec<Vec<bool>>, hints: &DecodeHints) -> (r: Result<
        DecoderResult,
        Error,
    >)
        ensures
            self.decodes_image(image@, hints.character_set, r),
    {
        let bits = match BitMatrix::parse_image(image) {
            Ok(bits) => bits,
            Err(e) => {
                return Err(e);
            },
        };
        let r = self.decode_hints(&bits, hints);
        proof {
            assert(Decoder::shows(bits, image@) && self.gives(bits, hints.character_set, r));
        }
        r
    }

    /// What the modules `bits` hold, read under no hint.
    pub fn decode(&self, bits: &BitMatrix) -> (r: Result<DecoderResult, Error>)
        requires
            bits.wf(),
        ensures
            match self.spec_decode(*bits, None) {
                Ok(d) => r matches Ok(result) && Decoder::describes(result, d),
                Err(kind) => r matches Err(e) && e.spec_kind() == kind,
            },
    {
        let hints = DecodeHints::build_hints(false, false, false);
        self.decode_hints(bits, &hints)
    }

    /// What the modules `bits` hold; a set cell stands for a dark module. The symbol is
    /// read as it is and, where that fails, mirrored. A symbol that cannot be read
    /// either way is refused with the error of the first reading.
    pub fn decode_hints(&self, bits: &BitMatrix, hints: &DecodeHints) -> (r: Result<
        DecoderResult,
        Error,
    >)
        requires
            bits.wf(),
        ensures
            match self.spec_decode(*bits, hints.character_set) {
                Ok(d) => r matches Ok(result) && Decoder::describes(result, d),
                Err(kind) => r matches Err(e) && e.spec_kind() == kind,
            },
    {
        match self.decode_as(bits, false, hints) {
            Ok(result) => Ok(result),
            Err(first) => match self.decode_as(bits, true, hints) {
                Ok(result) => Ok(result),
                Err(_) => Err(first),
            },
        }
    }

    /// What the modules `bits` hold, read as they are or mirrored.
    pub fn decode_as(&self, bits: &BitMatrix, mirror: bool, hints: &DecodeHints) -> (r: Result<
        DecoderResult,
        Error,
    >)
        requires
            bits.wf(),
        ensures
            match read_symbol(self.spec_versions().table(), *bits, mirror, hints.character_set) {
                Ok(d) => r matches Ok(result) && Decoder::describes(result, d),
                Err(kind) => r matches Err(e) && e.spec_kind() == kind,
            },
    {
        proof {
            use_type_invariant(self);
        }
        let mut parser = match BitMatrixParser::new(bits) {
            Ok(parser) => parser,
            Err(e) => {
                return Err(e);
            },
        };
        parser.set_mirror(mirror);
        let version = match parser.readVersion(&self.versions) {
            Ok(version) => version,
            Err(e) => {
                return Err(e);
            },
        };
        let format = match parser.readFormatInformation() {
            Ok(format) => format,
            Err(e) => {
                return Err(e);
            },
        };
        let level = format.getErrorCorrectionLevel();
        proof {
            let data = BitMatrixParser::spec_format(*bits, mirror)->Some_0;
            assert(level == level_of_bits((data >> 3) & 0x03));
        }
        let codewords = match parser.readCodewords(version, &format) {
            Ok(codewords) => codewords,
            Err(e) => {
                return Err(e);
            },
        };
        let bytes = match Decoder::correct_blocks(&codewords, version, &level) {
            Ok(bytes) => bytes,
            Err(e) => {
                return Err(e);
            },
        };
        DecodedBitStreamParser::decode(bytes, version, &level, hints)
    }

    /// The data codewords of a symbol of the given version and level with the codewords
    /// `codewords`: the codewords are handed each to its block, the blocks are repaired,
    /// and their data codewords are put one block behind the other.
    pub fn correct_blocks(codewords: &Vec<u8>, version: &Version, level: &ErrorCorrectionLevel) -> (r:
        Result<Vec<u8>, Error>)
        requires
            version.wf(),
            codewords@.len() == version.spec_total_codewords(),
        ensures
            ({
                let total = version.spec_total_codewords();
                let data = version.spec_data_codewords(level.spec_ordinal() as int);
                let blocks = version.spec_ec_blocks()[level.spec_ordinal() as int].spec_num_blocks() as int;
                if !shareable(total, data, blocks) {
                    r matches Err(e) && e is IllegalArgumentException
                } else {
                    match corrected_upto(codewords@, total, data, blocks, blocks as nat) {
                        Some(bytes) => r matches Ok(b) && b@ == bytes && b@.len() == data,
                        None => r matches Err(e) && e is ReedSolomonException,
                    }
                }
            }),
    {
        let ghost total = version.spec_total_codewords();
        let ghost data = version.spec_data_codewords(level.spec_ordinal() as int);
        let ghost count = version.spec_ec_blocks()[level.spec_ordinal() as int].spec_num_blocks() as int;
        let blocks = match DataBlock::getDataBlocks(codewords, version, level) {
            Ok(blocks) => blocks,
            Err(e) => {
                return Err(e);
            },
        };
        let field = GenericGFEnum::QrCodeField256.get();
        let decoder = ReedSolomonDecoder::new(&field);
        let mut bytes: Vec<u8> = Vec::new();
        let mut k: usize = 0;
        proof {
            lemma_shareable(total, data, count);
        }
        while k < blocks.len()
            invariant
                k <= blocks@.len(),
                blocks@.len() == count,
                0 <= data <= total <= 3706,
                total == version.spec_total_codewords(),
                data == version.spec_data_codewords(level.spec_ordinal() as int),
                count == version.spec_ec_blocks()[level.spec_ordinal() as int].spec_num_blocks(),
                shareable(total, data, count),
                decoder.spec_field().wf(),
                decoder.field_spec() == qr_field(),
                forall|j: int|
                    0 <= j < count ==> (#[trigger] blocks@[j]).spec_num_data_codewords()
                        == block_data_len(total, data, count, j) && blocks@[j].spec_codewords()
                        == block_codewords(codewords@, total, data, count, j),
                corrected_upto(codewords@, total, data, count, k as nat) == Some(bytes@),
                bytes@.len() == block_offset(total, data, count, k as int),
            decreases blocks@.len() - k,
        {
            let block = &blocks[k];
            let numDataCodewords = block.getNumDataCodewords();
            proof {
                lemma_shareable(total, data, count);
                lemma_block_offsets(total, data, count, k as int);
                assert(blocks@[k as int].spec_codewords().len() == block_data_len(
                    total,
                    data,
                    count,
                    k as int,
                ) + block_ec_len(total, data, count));
            }
            let repaired = match Decoder::correctErrors(
                &decoder,
                block.getCodewords(),
                numDataCodewords,
            ) {
                Ok(repaired) => repaired,
                Err(e) => {
                    proof {
                        assert(corrected_upto(codewords@, total, data, count, (k + 1) as nat)
                            is None);
                        lemma_corrected_upto(
                            codewords@,
                            total,
                            data,
                            count,
                            (k + 1) as nat,
                            count as nat,
                        );
                    }
                    return Err(e);
                },
            };
            Decoder::extend(&mut bytes, &repaired);
            k += 1;
        }
        proof {
            lemma_shareable(total, data, count);
        }
        Ok(bytes)
    }

    /// Appends `more` to `bytes`.
    fn extend(bytes: &mut Vec<u8>, more: &Vec<u8>)
        ensures
            final(bytes)@ == old(bytes)@ + more@,
    {
        let mut i: usize = 0;
        proof {
            assert(bytes@ =~= old(bytes)@ + more@.subrange(0, 0));
        }
        while i < more.len()
            invariant
                i <= more@.len(),
                bytes@ == old(bytes)@ + more@.subrange(0, i as int),
            decreases more@.len() - i,
        {
            bytes.push(more[i]);
            proof {
                assert(bytes@ =~= old(bytes)@ + more@.subrange(0, i + 1));
            }
            i += 1;
        }
        proof {
            assert(more@.subrange(0, more@.len() as int) =~= more@);
        }
    }

    /// The data codewords of a block with their errors repaired. The first
    /// `numDataCodewords` of `codewordBytes` are the data codewords of the block, the
    /// others its error correction codewords. A block with more errors than can be
    /// repaired is refused.
    pub fn correctErrors(
        decoder: &ReedSolomonDecoder<'_>,
        codewordBytes: &Vec<u8>,
        numDataCodewords: usize,
    ) -> (r: Result<Vec<u8>, Error>)
        requires
            decoder.spec_field().wf(),
            decoder.field_spec() == qr_field(),
            numDataCodewords <= codewordBytes@.len() <= ReedSolomonDecoder::MAX_BLOCK,
        ensures
            match corrected_block(codewordBytes@, numDataCodewords as int) {
                Some(d) => r matches Ok(v) && v@ == d,
                None => r matches Err(e) && e is ReedSolomonException,
            },
            r matches Ok(v) ==> v@.len() == numDataCodewords,
    {
        reveal(corrected_block);
        let numCodewords = codewordBytes.len();
        // The codewords as elements of the field.
        let mut codewordsInts: Vec<u32> = Vec::new();
        let mut i: usize = 0;
        while i < numCodewords
            invariant
                i <= numCodewords,
                numCodewords == codewordBytes@.len(),
                codewordsInts@ == widened(codewordBytes@).subrange(0, i as int),
            decreases numCodewords - i,
        {
            codewordsInts.push(codewordBytes[i] as u32);
            proof {
                assert(codewordsInts@ =~= widened(codewordBytes@).subrange(0, i + 1));
            }
            i += 1;
        }
        proof {
            assert(widened(codewordBytes@).subrange(0, numCodewords as int) =~= widened(
                codewordBytes@,
            ));
        }
        match decoder.decode(&mut codewordsInts, numCodewords - numDataCodewords) {
            Ok(()) => {},
            Err(_) => {
                return Err(Error::ReedSolomonException("The block cannot be repaired".to_owned()));
            },
        }
        // Only the data codewords are handed on.
        let ghost repaired = codewordsInts@;
        let mut corrected: Vec<u8> = Vec::new();
        let mut i: usize = 0;
        while i < numDataCodewords
            invariant
                i <= numDataCodewords <= codewordsInts@.len(),
                codewordsInts@ == repaired,
                corrected@.len() == i,
                forall|j: int| 0 <= j < i ==> #[trigger] corrected@[j] == repaired[j] as u8,
            decreases numDataCodewords - i,
        {
            corrected.push(codewordsInts[i] as u8);
            i += 1;
        }
        proof {
            assert(corrected@ =~= corrected_block(codewordBytes@, numDataCodewords as int)->Some_0);
        }
        Ok(corrected)
    }
}

} // verus!
