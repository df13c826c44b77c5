use crate::common::bit_array::{low_bits, BitArray};
use crate::common::bit_source::bytes_bits;
use crate::common::charset::{shift_jis_of, Charset};
use crate::encode_hint_type::EncodeHints;
use crate::error::Error;
use crate::qrcode::decoder::error_correction_level::ErrorCorrectionLevel;
use crate::qrcode::decoder::mode::Mode;
use crate::qrcode::decoder::version::Version;
use crate::qrcode::encoder::byte_matrix::ByteMatrix;
use crate::qrcode::encoder::encoder::{
    fits, lemma_alphanumeric_bits_len, lemma_numeric_bits_len, mode_of, recommended, terminated,
    Encoder, MAX_CONTENT,
};
use crate::qrcode::encoder::mask_util::{
    rule1_penalty, rule2_penalty, rule3_penalty, rule4_penalty, MaskUtil,
};
use crate::qrcode::encoder::matrix_util::{
    data_room, function_patterns, symbol_modules, MatrixUtil,
};
use crate::qrcode::encoder::qrcode::QRCode;
use crate::qrcode::encoder::room::lemma_version_has_room;
use vstd::arithmetic::power2::pow2;
use vstd::prelude::*;
use vstd::string::StrSliceExecFns;

verus! {

/// The penalty of the modules `m`, whose rows have `w` cells: the sum of the four rules.
pub open spec fn mask_penalty(m: Seq<Seq<i8>>, w: nat) -> nat {
    rule1_penalty(m, w) + rule2_penalty(m, w) + rule3_penalty(m, w) + rule4_penalty(m, w)
}

/// The first of the numbers below `n` at which `penalty` is least.
pub open spec fn best_below(penalty: spec_fn(int) -> nat, n: nat) -> int
    decreases n,
{
    if n <= 1 {
        0
    } else {
        let best = best_below(penalty, (n - 1) as nat);
        if penalty(n - 1) < penalty(best) {
            n - 1
        } else {
            best
        }
    }
}

/// The penalty of the symbol under the given mask.
#[verifier::opaque]
pub open spec fn symbol_penalty(
    number: int,
    centers: Seq<usize>,
    level_bits: u32,
    bits: Seq<bool>,
    mask: int,
) -> nat {
    mask_penalty(symbol_modules(number, centers, level_bits, mask, bits), (4 * number + 17) as nat)
}

/// The penalty of the symbol under each mask.
pub open spec fn penalty_by_mask(
    number: int,
    centers: Seq<usize>,
    level_bits: u32,
    bits: Seq<bool>,
) -> spec_fn(int) -> nat {
    |mask: int| symbol_penalty(number, centers, level_bits, bits, mask)
}

/// Whether the bits find room in the symbol under the given mask.
#[verifier::opaque]
pub open spec fn has_room(number: int, centers: Seq<usize>, level_bits: u32, mask: int, bits: Seq<bool>) -> bool {
    bits.len() <= data_room(function_patterns(number, centers, level_bits, mask), 4 * number + 17)
}

/// The mask that is chosen: the first of the eight under which the penalty is least.
pub open spec fn chosen_mask(number: int, centers: Seq<usize>, level_bits: u32, bits: Seq<bool>) -> int {
    best_below(penalty_by_mask(number, centers, level_bits, bits), 8)
}

/// The first least penalty is a least penalty, and the first of them.
pub proof fn lemma_best_below(penalty: spec_fn(int) -> nat, n: nat)
    requires
        n >= 1,
    ensures
        0 <= best_below(penalty, n) < n,
        forall|m: int| 0 <= m < n ==> penalty(best_below(penalty, n)) <= #[trigger] penalty(m),
        forall|m: int|
            0 <= m < best_below(penalty, n) ==> penalty(best_below(penalty, n))
                < #[trigger] penalty(m),
    decreases n,
{
    if n > 1 {
        lemma_best_below(penalty, (n - 1) as nat);
    }
}

/// For given bits, version and level the chosen mask is one of the eight, no mask has a
/// smaller penalty, and every mask before it has a greater one. The mask is a function of
/// bits, version and level, so that the same input gives the same mask.
pub proof fn lemma_chosen_mask_is_least(
    number: int,
    centers: Seq<usize>,
    level_bits: u32,
    bits: Seq<bool>,
    other: int,
)
    requires
        0 <= other < 8,
    ensures
        0 <= chosen_mask(number, centers, level_bits, bits) < 8,
        penalty_by_mask(number, centers, level_bits, bits)(
            chosen_mask(number, centers, level_bits, bits),
        ) <= penalty_by_mask(number, centers, level_bits, bits)(other),
        other < chosen_mask(number, centers, level_bits, bits) ==> penalty_by_mask(
            number,
            centers,
            level_bits,
            bits,
        )(chosen_mask(number, centers, level_bits, bits)) < penalty_by_mask(
            number,
            centers,
            level_bits,
            bits,
        )(other),
{
    lemma_best_below(penalty_by_mask(number, centers, level_bits, bits), 8);
}

/// What the encoder makes of a text.
pub struct Encoded {
    /// The mode of the segment.
    pub mode: Mode,
    /// The number of the version.
    pub number: int,
    /// The number of the mask.
    pub mask: int,
    /// The modules.
    pub modules: Seq<Seq<i8>>,
}

impl Encoder {
    /// The character set that an extended channel interpretation is to name: that of the
    /// bytes of a Byte segment, where it is another than the one that a reader takes for
    /// granted.
    pub open spec fn spec_eci(mode: Mode, encoding: Charset, default: Charset) -> Option<Charset> {
        if mode == Mode::Byte && encoding != default {
            Some(encoding)
        } else {
            None
        }
    }

    /// The bits before the character count: the extended channel interpretation, where
    /// one is to be named; the announcement of FNC1 in first position for text in the GS1
    /// format; and the announcement of the mode.
    pub open spec fn spec_header_bits(mode: Mode, gs1: bool, eci: Option<Charset>) -> Seq<bool> {
        let named = match eci {
            Some(c) => Encoder::spec_eci_bits(c),
            None => Seq::empty(),
        };
        if gs1 {
            named + low_bits(Mode::Fnc1FirstPosition.spec_bits(), 4) + low_bits(
                mode.spec_bits(),
                4,
            )
        } else {
            named + low_bits(mode.spec_bits(), 4)
        }
    }

    /// The number of the version: the one that the hint names, if the bits fit it, or
    /// the smallest that the bits fit.
    pub open spec fn spec_version_number(
        table: Seq<Version>,
        ordinal: int,
        mode: Mode,
        payload: int,
        hint: Option<usize>,
    ) -> Option<int> {
        match hint {
            Some(n) => if 1 <= n <= 40 && fits(
                table[n - 1],
                ordinal,
                payload + mode.spec_character_count_bits(n as int),
            ) {
                Some(n as int)
            } else {
                None
            },
            None => recommended(table, ordinal, mode, payload),
        }
    }

    /// The number of the mask: the one that the hint names, if it names one, or the
    /// chosen one; none where the bits do not find room.
    pub open spec fn spec_mask(
        number: int,
        centers: Seq<usize>,
        level_bits: u32,
        bits: Seq<bool>,
        hint: Option<i32>,
    ) -> Option<int> {
        if hint is Some && 0 <= hint->Some_0 < 8 {
            if has_room(number, centers, level_bits, hint->Some_0 as int, bits) {
                Some(hint->Some_0 as int)
            } else {
                None
            }
        } else {
            if forall|m: int| 0 <= m < 8 ==> #[trigger] has_room(number, centers, level_bits, m, bits) {
                Some(chosen_mask(number, centers, level_bits, bits))
            } else {
                None
            }
        }
    }

    /// The number that the character count of a segment holds: the number of bytes for
    /// the Byte mode, of pairs of bytes for Kanji, of characters for the others.
    pub open spec fn spec_num_letters(content: &str, mode: Mode, data: Seq<bool>) -> int {
        if mode == Mode::Byte {
            (data.len() + 7) as int / 8
        } else if mode == Mode::Kanji {
            data.len() as int / 13
        } else {
            content@.len() as int
        }
    }

    /// The bits of the symbol for `content` before they are shared among the blocks, with
    /// the mode and the number of the version, or `None` where the encoder refuses: the
    /// mode is chosen for the text, the bits of the text are formed, the version is the
    /// hinted one or the smallest that holds header, character count and bits, and the
    /// bits are ended and filled.
    #[verifier::opaque]
    pub open spec fn spec_payload(
        &self,
        content: &str,
        ec_level: ErrorCorrectionLevel,
        hints: EncodeHints,
    ) -> Option<(Mode, int, Seq<bool>)> {
        let table = self.spec_versions().table();
        let ordinal = ec_level.spec_ordinal() as int;
        let encoding = match hints.character_set {
            Some(c) => c,
            None => self.spec_default_encoding(),
        };
        let mode = mode_of(content@, shift_jis_of(content@));
        match Encoder::spec_data_bits(content, mode, encoding) {
            None => None,
            Some(data) => {
                let header = Encoder::spec_header_bits(
                    mode,
                    hints.gs1_format,
                    Encoder::spec_eci(mode, encoding, self.spec_default_encoding()),
                );
                match Encoder::spec_version_number(
                    table,
                    ordinal,
                    mode,
                    (header.len() + data.len()) as int,
                    hints.qr_version,
                ) {
                    None => None,
                    Some(number) => {
                        let version = table[number - 1];
                        let width = mode.spec_character_count_bits(number);
                        let letters = Encoder::spec_num_letters(content, mode, data);
                        let payload = header + low_bits(letters as u32, width as nat) + data;
                        let room = version.spec_data_codewords(ordinal);
                        if letters >= pow2(width as nat) || payload.len() > 8 * room {
                            None
                        } else {
                            Some((mode, number, terminated(payload, room as nat)))
                        }
                    },
                }
            },
        }
    }

    /// The mask and the modules of the symbol of the given version and level that holds
    /// the bits, or `None` where the encoder refuses: the bits are shared among the
    /// blocks and given their error correction, and the mask is the hinted or the chosen
    /// one.
    #[verifier::opaque]
    pub open spec fn spec_symbol(
        version: Version,
        ec_level: ErrorCorrectionLevel,
        bits: Seq<bool>,
        mask_hint: Option<i32>,
    ) -> Option<(int, Seq<Seq<i8>>)> {
        let ordinal = ec_level.spec_ordinal() as int;
        match Encoder::spec_interleave(
            bits,
            version.spec_total_codewords(),
            version.spec_data_codewords(ordinal),
            version.spec_ec_blocks()[ordinal].spec_num_blocks() as int,
        ) {
            None => None,
            Some(codewords) => match Encoder::spec_mask(
                version.spec_number(),
                version.spec_centers(),
                ec_level.spec_bits(),
                bytes_bits(codewords),
                mask_hint,
            ) {
                None => None,
                Some(mask) => Some(
                    (
                        mask,
                        symbol_modules(
                            version.spec_number(),
                            version.spec_centers(),
                            ec_level.spec_bits(),
                            mask,
                            bytes_bits(codewords),
                        ),
                    ),
                ),
            },
        }
    }

    /// What the encoder makes of `content` at the given level and under the given hints,
    /// or `None` where it refuses.
    pub open spec fn spec_encode(
        &self,
        content: &str,
        ec_level: ErrorCorrectionLevel,
        hints: EncodeHints,
    ) -> Option<Encoded> {
        match self.spec_payload(content, ec_level, hints) {
            None => None,
            Some((mode, number, bits)) => match Encoder::spec_symbol(
                self.spec_versions().table()[number - 1],
                ec_level,
                bits,
                hints.qr_mask_pattern,
            ) {
                None => None,
                Some((mask, modules)) => Some(Encoded { mode, number, mask, modules }),
            },
        }
    }

    /// The symbol for `content` at the given level, under no hint.
    pub fn encode<'a>(&'a self, content: &str, ec_level: ErrorCorrectionLevel) -> (r: Result<
        QRCode<'a>,
        Error,
    >)
        requires
            self.wf(),
        ensures
            match self.spec_encode(content, ec_level, Encoder::no_hints()) {
                Some(s) => r matches Ok(code) && Encoder::describes(code, s, ec_level),
                None => r matches Err(e) && e is WriterException,
            },
    {
        let hints = EncodeHints::new();
        self.encode_hints(content, ec_level, &hints)
    }

    /// No hint at all.
    pub open spec fn no_hints() -> EncodeHints {
        EncodeHints {
            error_correction: None,
            character_set: None,
            margin: None,
            qr_version: None,
            qr_mask_pattern: None,
            gs1_format: false,
        }
    }

    /// Whether `code` is the description of what was encoded.
    pub open spec fn describes(code: QRCode, s: Encoded, ec_level: ErrorCorrectionLevel) -> bool {
        &&& code.spec_mode() == s.mode
        &&& code.spec_ec_level() == ec_level
        &&& code.spec_version().wf()
        &&& code.spec_version().spec_number() == s.number
        &&& code.spec_mask_pattern() == s.mask
        &&& code.spec_matrix().wf()
        &&& code.spec_matrix().spec_width() == 4 * s.number + 17
        &&& code.spec_matrix().spec_height() == 4 * s.number + 17
        &&& code.spec_matrix()@ == s.modules
    }

    /// The symbol for `content` at the given level and under the given hints.
    pub fn encode_hints<'a>(
        &'a self,
        content: &str,
        ec_level: ErrorCorrectionLevel,
        hints: &EncodeHints,
    ) -> (r: Result<QRCode<'a>, Error>)
        requires
            self.wf(),
        ensures
            match self.spec_encode(content, ec_level, *hints) {
                Some(s) => r matches Ok(code) && Encoder::describes(code, s, ec_level),
                None => r matches Err(e) && e is WriterException,
            },
    {
        let assembled = match self.assemble_bits(content, ec_level, hints) {
            Ok(assembled) => assembled,
            Err(e) => {
                return Err(e);
            },
        };
        Encoder::make_symbol(
            &assembled.2,
            assembled.0,
            ec_level,
            assembled.1,
            hints.qr_mask_pattern,
        )
    }

    /// The bits before the character count of a segment of the given mode: the extended
    /// channel interpretation, where the bytes of a Byte segment are in another character
    /// set than `default`; the announcement of FNC1 in first position for text in the
    /// GS1 format; and the announcement of the mode.
    pub fn make_header(mode: &Mode, gs1: bool, encoding: &Charset, default: &Charset) -> (bits:
        BitArray)
        ensures
            bits.wf(),
            bits.clean(),
            bits@ == Encoder::spec_header_bits(
                *mode,
                gs1,
                Encoder::spec_eci(*mode, *encoding, *default),
            ),
            bits@.len() <= 20,
    {
        let mut header_bits = BitArray::new();
        // Bytes in another character set than a reader takes for granted are announced.
        if *mode == Mode::Byte && *encoding != *default {
            Encoder::append_eci(encoding, &mut header_bits);
        }
        // The FNC1 announcement for GS1 formatted data.
        if gs1 {
            Encoder::append_mode_info(&Mode::Fnc1FirstPosition, &mut header_bits);
        }
        Encoder::append_mode_info(mode, &mut header_bits);
        proof {
            assert(header_bits@ =~= Encoder::spec_header_bits(
                *mode,
                gs1,
                Encoder::spec_eci(*mode, *encoding, *default),
            ));
        }
        header_bits
    }

    /// The mode, the version and the bits of the symbol for `content`, the bits ended
    /// and filled.
    pub fn assemble_bits<'a>(
        &'a self,
        content: &str,
        ec_level: ErrorCorrectionLevel,
        hints: &EncodeHints,
    ) -> (r: Result<(Mode, &'a Version, BitArray), Error>)
        requires
            self.wf(),
        ensures
            match self.spec_payload(content, ec_level, *hints) {
                Some(s) => r matches Ok(t) && t.0 == s.0 && t.1.wf() && t.1.spec_number() == s.1
                    && *t.1 == self.spec_versions().table()[s.1 - 1] && t.2.wf() && t.2@ == s.2,
                None => r matches Err(e) && e is WriterException,
            },
    {
        reveal(Encoder::spec_payload);
        // The character set that the caller has named, if any.
        let encoding: Charset = match hints.character_set {
            Some(c) => c,
            None => self.get_default_encoding(),
        };
        // One mode for the whole text.
        let mode = match self.choose_mode(content, &encoding) {
            Ok(mode) => mode,
            Err(e) => {
                return Err(Error::WriterException("No mode".to_owned()));
            },
        };
        // The header holds what comes before the character count.
        let ghost eci = Encoder::spec_eci(mode, encoding, self.spec_default_encoding());
        let header_bits = Encoder::make_header(
            &mode,
            hints.gs1_format,
            &encoding,
            &self.get_default_encoding(),
        );
        // The data is kept apart until its size is known.
        let mut data_bits = BitArray::new();
        match Encoder::append_bytes(content, &mode, &mut data_bits, &encoding) {
            Ok(()) => {},
            Err(e) => {
                return Err(e);
            },
        }
        proof {
            Encoder::lemma_data_bits_len(content, mode, encoding);
        }
        let version: &'a Version = match hints.qr_version {
            Some(n) => {
                let version = match self.get_versions().get_version_for_number(n) {
                    Ok(version) => version,
                    Err(e) => {
                        return Err(e);
                    },
                };
                let bits_needed = Encoder::calculate_bits_needed(
                    &mode,
                    &header_bits,
                    &data_bits,
                    version,
                );
                if !Encoder::will_fit(bits_needed, version, &ec_level) {
                    return Err(
                        Error::WriterException("Data too big for requested version".to_owned()),
                    );
                }
                version
            },
            None => match self.recommend_version(&ec_level, &mode, &header_bits, &data_bits) {
                Ok(version) => version,
                Err(e) => {
                    return Err(e);
                },
            },
        };
        let mut header_and_data_bits = BitArray::new();
        header_and_data_bits.append_bit_array(&header_bits);
        // The character count: bytes for the Byte mode, pairs of bytes for Kanji,
        // characters for the others.
        let num_letters: usize = if mode == Mode::Byte {
            data_bits.get_size_in_bytes()
        } else if mode == Mode::Kanji {
            data_bits.get_size() / 13
        } else {
            content.unicode_len()
        };
        match Encoder::append_length_info(num_letters, version, &mode, &mut header_and_data_bits) {
            Ok(()) => {},
            Err(e) => {
                return Err(e);
            },
        }
        header_and_data_bits.append_bit_array(&data_bits);
        let ec_blocks = version.get_ec_blocks_for_level(&ec_level);
        let num_data_bytes = version.get_total_codewords() - ec_blocks.get_total_ec_codewords();
        proof {
            let width = mode.spec_character_count_bits(version.spec_number());
            assert(Seq::<bool>::empty() + header_bits@ =~= header_bits@);
            assert(header_and_data_bits@ =~= Encoder::spec_header_bits(
                mode,
                hints.gs1_format,
                eci,
            ) + low_bits(num_letters as u32, width as nat) + data_bits@);
        }
        // The bits are ended and filled.
        match Encoder::terminate_bits(num_data_bytes, &mut header_and_data_bits) {
            Ok(()) => {},
            Err(e) => {
                return Err(e);
            },
        }
        Ok((mode, version, header_and_data_bits))
    }

    /// The bits of a text are no more than 13 for each of at most `MAX_CONTENT`
    /// characters, bytes or pairs of bytes.
    pub proof fn lemma_data_bits_len(content: &str, mode: Mode, encoding: Charset)
        ensures
            Encoder::spec_data_bits(content, mode, encoding) matches Some(data) ==> data.len() <= 13
                * MAX_CONTENT,
    {
        if content@.len() <= MAX_CONTENT {
            lemma_numeric_bits_len(content@);
            lemma_alphanumeric_bits_len(content@);
        }
    }

    /// The symbol of the given version and level that holds the bits, under the hinted
    /// mask or the chosen one.
    pub fn make_symbol<'a>(
        bits: &BitArray,
        mode: Mode,
        ec_level: ErrorCorrectionLevel,
        version: &'a Version,
        mask_hint: Option<i32>,
    ) -> (r: Result<QRCode<'a>, Error>)
        requires
            bits.wf(),
            version.wf(),
        ensures
            match Encoder::spec_symbol(*version, ec_level, bits@, mask_hint) {
                Some(s) => r matches Ok(code) && Encoder::describes(
                    code,
                    Encoded { mode, number: version.spec_number(), mask: s.0, modules: s.1 },
                    ec_level,
                ),
                None => r matches Err(e) && e is WriterException,
            },
    {
        reveal(Encoder::spec_symbol);
        reveal(has_room);
        let ec_blocks = version.get_ec_blocks_for_level(&ec_level);
        let num_data_bytes = version.get_total_codewords() - ec_blocks.get_total_ec_codewords();
        // The codewords of the blocks with their error correction, in turn.
        let final_bits = match Encoder::interleave_with_ec_bytes(
            bits,
            version.get_total_codewords(),
            num_data_bytes,
            ec_blocks.get_num_blocks(),
        ) {
            Ok(bits) => bits,
            Err(e) => {
                return Err(e);
            },
        };
        let dimension = version.get_dimension_for_version();
        let mut matrix = ByteMatrix::new(dimension, dimension);
        // A mask that the caller has named is taken, if it is one.
        let mut mask_pattern: i32 = -1;
        match mask_hint {
            Some(hint_mask_pattern) => {
                if QRCode::is_valid_mask_pattern(hint_mask_pattern) {
                    mask_pattern = hint_mask_pattern;
                }
            },
            None => {},
        }
        if mask_pattern == -1 {
            mask_pattern = match Encoder::choose_mask_pattern(
                &final_bits,
                &ec_level,
                version,
                &mut matrix,
            ) {
                Ok(mask) => mask,
                Err(e) => {
                    return Err(e);
                },
            };
            proof {
                assert(has_room(
                    version.spec_number(),
                    version.spec_centers(),
                    ec_level.spec_bits(),
                    mask_pattern as int,
                    final_bits@,
                ));
            }
        }
        match MatrixUtil::build_matrix(&final_bits, &ec_level, version, mask_pattern, &mut matrix) {
            Ok(()) => {},
            Err(e) => {
                return Err(e);
            },
        }
        Ok(QRCode::new(mode, ec_level, version, mask_pattern, matrix))
    }

    /// The mask for the bits in a symbol of the given version and level: each of the
    /// eight masks is tried, and the first with the least penalty is taken. The matrix
    /// has the dimension of the version; what it held before does not count, and it is
    /// left with the symbol under the last mask. Bits that find no room in the symbol are
    /// refused, which does not happen to the codewords of a version of the standard.
    pub fn choose_mask_pattern(
        bits: &BitArray,
        ec_level: &ErrorCorrectionLevel,
        version: &Version,
        matrix: &mut ByteMatrix,
    ) -> (r: Result<i32, Error>)
        requires
            bits.wf(),
            version.wf(),
            old(matrix).wf(),
            old(matrix).spec_width() == version.spec_dimension(),
            old(matrix).spec_height() == version.spec_dimension(),
        ensures
            final(matrix).wf(),
            final(matrix).spec_width() == old(matrix).spec_width(),
            final(matrix).spec_height() == old(matrix).spec_height(),
            r is Ok <==> forall|m: int|
                0 <= m < 8 ==> #[trigger] has_room(
                    version.spec_number(),
                    version.spec_centers(),
                    ec_level.spec_bits(),
                    m,
                    bits@,
                ),
            r matches Ok(mask) ==> mask == chosen_mask(
                version.spec_number(),
                version.spec_centers(),
                ec_level.spec_bits(),
                bits@,
            ) && 0 <= mask < 8,
            r matches Err(e) ==> e is WriterException,
            version.is_standard() && bits@.len() <= 8 * version.spec_total_codewords() ==> r is Ok,
    {
        let ghost number = version.spec_number();
        let ghost centers = version.spec_centers();
        let ghost level_bits = ec_level.spec_bits();
        let ghost penalty_of = penalty_by_mask(number, centers, level_bits, bits@);
        // A lower penalty is better.
        let mut min_penalty: usize = 0;
        let mut best_mask_pattern: i32 = -1;
        let mut mask_pattern: i32 = 0;
        while mask_pattern < QRCode::NUM_MASK_PATTERNS
            invariant
                bits.wf(),
                version.wf(),
                number == version.spec_number(),
                centers == version.spec_centers(),
                level_bits == ec_level.spec_bits(),
                penalty_of == penalty_by_mask(number, centers, level_bits, bits@),
                matrix.wf(),
                matrix.spec_width() == version.spec_dimension(),
                matrix.spec_height() == version.spec_dimension(),
                matrix.spec_width() == old(matrix).spec_width(),
                matrix.spec_height() == old(matrix).spec_height(),
                0 <= mask_pattern <= 8,
                forall|m: int|
                    0 <= m < mask_pattern ==> #[trigger] has_room(
                        number,
                        centers,
                        level_bits,
                        m,
                        bits@,
                    ),
                mask_pattern == 0 ==> best_mask_pattern == -1,
                mask_pattern >= 1 ==> best_mask_pattern == best_below(
                    penalty_of,
                    mask_pattern as nat,
                ) && min_penalty == penalty_of(best_mask_pattern as int) && 0 <= best_mask_pattern
                    < mask_pattern,
            decreases 8 - mask_pattern,
        {
            let penalty = match Encoder::penalty_under_mask(
                bits,
                ec_level,
                version,
                mask_pattern,
                matrix,
            ) {
                Ok(penalty) => penalty,
                Err(e) => {
                    proof {
                        if version.is_standard() {
                            reveal(has_room);
                            lemma_version_has_room(*version, level_bits, mask_pattern as int);
                        }
                    }
                    return Err(e);
                },
            };
            proof {
                assert(penalty == penalty_of(mask_pattern as int));
                if mask_pattern >= 1 {
                    lemma_best_below(penalty_of, mask_pattern as nat);
                }
            }
            if best_mask_pattern == -1 || penalty < min_penalty {
                min_penalty = penalty;
                best_mask_pattern = mask_pattern;
            }
            mask_pattern += 1;
        }
        Ok(best_mask_pattern)
    }

    /// The penalty of the symbol that holds the bits under the given mask, one of 0 to 7.
    /// The matrix is left with that symbol.
    pub fn penalty_under_mask(
        bits: &BitArray,
        ec_level: &ErrorCorrectionLevel,
        version: &Version,
        mask_pattern: i32,
        matrix: &mut ByteMatrix,
    ) -> (r: Result<usize, Error>)
        requires
            bits.wf(),
            version.wf(),
            0 <= mask_pattern < 8,
            old(matrix).wf(),
            old(matrix).spec_width() == version.spec_dimension(),
            old(matrix).spec_height() == version.spec_dimension(),
        ensures
            final(matrix).wf(),
            final(matrix).spec_width() == old(matrix).spec_width(),
            final(matrix).spec_height() == old(matrix).spec_height(),
            r is Ok <==> has_room(
                version.spec_number(),
                version.spec_centers(),
                ec_level.spec_bits(),
                mask_pattern as int,
                bits@,
            ),
            r matches Ok(penalty) ==> penalty == symbol_penalty(
                version.spec_number(),
                version.spec_centers(),
                ec_level.spec_bits(),
                bits@,
                mask_pattern as int,
            ),
            r matches Err(e) ==> e is WriterException,
    {
        reveal(has_room);
        reveal(symbol_penalty);
        match MatrixUtil::build_matrix(bits, ec_level, version, mask_pattern, matrix) {
            Ok(()) => {},
            Err(e) => {
                return Err(e);
            },
        }
        Ok(Encoder::calculate_mask_penalty(matrix))
    }

    /// The penalty of the modules: the sum of the four rules.
    pub fn calculate_mask_penalty(matrix: &ByteMatrix) -> (penalty: usize)
        requires
            MaskUtil::measurable(matrix),
            matrix.spec_width() >= 1,
            matrix.spec_height() >= 1,
        ensures
            penalty == mask_penalty(matrix@, matrix.spec_width() as nat),
    {
        MaskUtil::apply_mask_penalty_rule1(matrix) + MaskUtil::apply_mask_penalty_rule2(matrix)
            + MaskUtil::apply_mask_penalty_rule3(matrix) + MaskUtil::apply_mask_penalty_rule4(
            matrix,
        )
    }
}

} // verus!
