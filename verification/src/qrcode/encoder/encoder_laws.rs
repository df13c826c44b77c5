use crate::common::bit_source::bytes_bits;
use crate::common::charset::{chars_up_to, shift_jis_of, single_bytes};
use crate::common::reedsolomon::code_laws::lemma_parity_is_had;
use crate::encode_hint_type::EncodeHints;
use crate::qrcode::decoder::error_correction_level::ErrorCorrectionLevel;
use crate::qrcode::decoder::mode::Mode;
use crate::qrcode::decoder::version::{lemma_standard_version, Version, Versions};
use crate::qrcode::decoder::version_table::{
    lemma_data_codewords_grow, lemma_standard_layout, standard_blocks, standard_data_codewords,
};
use crate::qrcode::encoder::cells::{all_set, lemma_symbol_is_filled};
use crate::qrcode::encoder::encoder::{
    alphanumeric_bits, alphanumeric_code, first_fitting, fits, is_digit, lemma_first_fitting,
    mode_of, numeric_bits, only_kanji, recommended, terminated, Encoder,
};
use crate::qrcode::encoder::encoder_blocks::{
    bits_bytes, block_data, block_ec_len, block_parity, interleaved, lemma_block_offsets,
    lemma_shareable, lemma_table_place, shareable, widened,
};
use crate::qrcode::encoder::encoder_kanji::{kanji_lead, lead_of};
use crate::qrcode::encoder::encoder_symbol::{has_room, lemma_chosen_mask_is_least};
use crate::qrcode::encoder::room::lemma_version_has_room;
use vstd::arithmetic::power2::pow2;
use vstd::prelude::*;

verus! {

/// A text of digits has ten bits for each three digits, and seven for two or four for one
/// that are left at the end.
pub proof fn lemma_numeric_bits_count(s: Seq<char>)
    ensures
        numeric_bits(s).len() == 10 * (s.len() / 3) + if s.len() % 3 == 2 {
            7int
        } else if s.len() % 3 == 1 {
            4int
        } else {
            0int
        },
    decreases s.len(),
{
    if s.len() >= 3 {
        lemma_numeric_bits_count(s.subrange(3, s.len() as int));
    }
}

/// A text of the alphanumeric set has eleven bits for each two characters, and six for one
/// that is left at the end.
pub proof fn lemma_alphanumeric_bits_count(s: Seq<char>)
    ensures
        alphanumeric_bits(s).len() == 11 * (s.len() / 2) + 6 * (s.len() % 2),
    decreases s.len(),
{
    if s.len() >= 2 {
        lemma_alphanumeric_bits_count(s.subrange(2, s.len() as int));
    }
}

/// A character up to U+007F is the byte of its number.
proof fn lemma_plain_byte(c: char)
    requires
        c as u32 <= 0x7F,
    ensures
        (c as u8) as u32 == c as u32,
{
}

/// A text of the alphanumeric set is no Kanji: where the text is not empty and every
/// character is of the set, the mode is Numeric for a text of digits and Alphanumeric for
/// any other.
pub proof fn lemma_mode_of_alphanumeric_text(content: Seq<char>)
    requires
        content.len() >= 1,
        forall|i: int| 0 <= i < content.len() ==> alphanumeric_code(#[trigger] content[i]) != -1,
    ensures
        !only_kanji(shift_jis_of(content)),
        mode_of(content, shift_jis_of(content)) == if forall|i: int|
            0 <= i < content.len() ==> is_digit(#[trigger] content[i]) {
            Mode::Numeric
        } else {
            Mode::Alphanumeric
        },
{
    assert(chars_up_to(content, 0x7F)) by {
        assert forall|i: int| 0 <= i < content.len() implies (#[trigger] content[i]) as u32
            <= 0x7F by {
            assert(alphanumeric_code(content[i]) != -1);
        }
    }
    let bytes = single_bytes(content);
    assert(alphanumeric_code(content[0]) != -1);
    if bytes.len() % 2 == 0 {
        lemma_plain_byte(content[0]);
        assert(!kanji_lead(lead_of(bytes, 0)));
    }
}

/// Bits that are ended and filled fill the data codewords: where the bits are no more
/// than the room, there are eight for each data codeword.
pub proof fn lemma_terminated_fills(bits: Seq<bool>, num_data_bytes: nat)
    requires
        bits.len() <= 8 * num_data_bytes,
    ensures
        terminated(bits, num_data_bytes).len() == 8 * num_data_bytes,
{
}

/// The codewords of a version of the standard can be shared among its blocks at every
/// level, and each block then has the codewords of error correction that the standard
/// gives it.
pub proof fn lemma_version_is_shareable(v: Version, level: int)
    requires
        v.wf(),
        v.is_standard(),
        0 <= level < 4,
    ensures
        shareable(
            v.spec_total_codewords(),
            v.spec_data_codewords(level),
            v.spec_ec_blocks()[level].spec_num_blocks() as int,
        ),
        block_ec_len(
            v.spec_total_codewords(),
            v.spec_data_codewords(level),
            v.spec_ec_blocks()[level].spec_num_blocks() as int,
        ) == standard_blocks(v.spec_number(), level).ec,
{
    lemma_standard_version(v, level);
    lemma_standard_layout(v.spec_number(), level);
    let b = standard_blocks(v.spec_number(), level);
    let ec = b.ec;
    let c1 = b.first_count;
    let d1 = b.first_data;
    let c2 = b.second_count;
    let d2 = b.second_data;
    let blocks = c1 + c2;
    assert(c1 * d1 + c2 * d2 == d1 * blocks + c2 && c1 * (d1 + ec) + c2 * (d2 + ec) == (d1 + ec)
        * blocks + c2) by (nonlinear_arith)
        requires
            blocks == c1 + c2,
            c2 == 0 || d2 == d1 + 1,
    ;
    lemma_table_place(d1, c2, blocks);
    lemma_table_place(d1 + ec, c2, blocks);
}

/// A version of the standard gets its codewords at every level: bits that fill the data
/// codewords are shared among the blocks, every block gets its error correction, and the
/// codewords taken in turn are as many as the version holds.
pub proof fn lemma_codewords_are_had(v: Version, level: int, bits: Seq<bool>)
    requires
        v.wf(),
        v.is_standard(),
        0 <= level < 4,
        bits.len() == 8 * v.spec_data_codewords(level),
    ensures
        Encoder::spec_interleave(
            bits,
            v.spec_total_codewords(),
            v.spec_data_codewords(level),
            v.spec_ec_blocks()[level].spec_num_blocks() as int,
        ) is Some,
        Encoder::spec_interleave(
            bits,
            v.spec_total_codewords(),
            v.spec_data_codewords(level),
            v.spec_ec_blocks()[level].spec_num_blocks() as int,
        )->Some_0.len() == v.spec_total_codewords(),
{
    let total = v.spec_total_codewords();
    let data = v.spec_data_codewords(level);
    let blocks = v.spec_ec_blocks()[level].spec_num_blocks() as int;
    let bytes = bits_bytes(bits);
    lemma_version_is_shareable(v, level);
    lemma_standard_layout(v.spec_number(), level);
    lemma_shareable(total, data, blocks);
    assert forall|k: int| 0 <= k < blocks implies (#[trigger] block_parity(
        bytes,
        total,
        data,
        blocks,
        k,
    )) is Ok by {
        lemma_block_offsets(total, data, blocks, k);
        let block = block_data(bytes, total, data, blocks, k);
        assert(block.len() >= 1);
        lemma_parity_is_had(widened(block), block_ec_len(total, data, blocks) as nat);
    }
    let d1 = data / blocks;
    let e1 = block_ec_len(total, data, blocks);
    assert(d1 * blocks >= 0 && e1 * blocks >= 0) by (nonlinear_arith)
        requires
            d1 >= 0,
            e1 >= 0,
            blocks >= 0,
    ;
    assert(d1 * blocks == d1 * (blocks as nat) && e1 * blocks == e1 * (blocks as nat));
    assert(interleaved(bytes, total, data, blocks)->Some_0.len() == total);
}

impl Versions {
    /// The version for a segment is the first that holds it: where `number` holds the
    /// `payload` bits with its own character count, and no version before it holds them
    /// even with the character count of version 1, it is the version that is found.
    pub proof fn lemma_first_holding_version(&self, ordinal: int, mode: Mode, payload: int, number: int)
        requires
            self.wf(),
            0 <= ordinal < 4,
            1 <= number <= 40,
            payload + mode.spec_character_count_bits(number) <= 8 * standard_data_codewords(
                number,
                ordinal,
            ),
            forall|k: int|
                1 <= k < number ==> payload + mode.spec_character_count_bits(1) > 8
                    * #[trigger] standard_data_codewords(k, ordinal),
        ensures
            recommended(self.table(), ordinal, mode, payload) == Some(number),
    {
        let table = self.table();
        let first = mode.spec_character_count_bits(1);
        let own = mode.spec_character_count_bits(number);
        assert(first <= own);
        assert forall|k: int| 1 <= k < number implies !fits(
            #[trigger] table[k - 1],
            ordinal,
            payload + first,
        ) && !fits(table[k - 1], ordinal, payload + own) by {
            self.lemma_standard(k, ordinal);
            assert(payload + first > 8 * standard_data_codewords(k, ordinal));
        }
        self.lemma_standard(number, ordinal);
        assert(fits(table[number - 1], ordinal, payload + own));
        assert(fits(table[number - 1], ordinal, payload + first));
        lemma_first_fitting(table, ordinal, payload + first, 1);
        lemma_first_fitting(table, ordinal, payload + own, 1);
    }
}

impl Encoder {
    /// The number of bits that `content` takes in a symbol of the version numbered
    /// `number`: those before the character count, the character count and those of the
    /// text. None where the text has no bits in its mode.
    pub open spec fn spec_bits_needed(&self, content: &str, hints: EncodeHints, number: int) -> Option<
        int,
    > {
        let encoding = match hints.character_set {
            Some(c) => c,
            None => self.spec_default_encoding(),
        };
        let mode = mode_of(content@, shift_jis_of(content@));
        match Encoder::spec_data_bits(content, mode, encoding) {
            None => None,
            Some(data) => Some(
                Encoder::spec_header_bits(
                    mode,
                    hints.gs1_format,
                    Encoder::spec_eci(mode, encoding, self.spec_default_encoding()),
                ).len() + mode.spec_character_count_bits(number) + data.len(),
            ),
        }
    }

    /// Whether `content` takes more bits than a symbol of any version has room for at
    /// the level.
    pub open spec fn too_big(&self, content: &str, ec_level: ErrorCorrectionLevel, hints: EncodeHints) -> bool {
        forall|n: int|
            1 <= n <= 40 ==> match #[trigger] self.spec_bits_needed(content, hints, n) {
                Some(bits) => bits > 8 * self.spec_versions().table()[n - 1].spec_data_codewords(
                    ec_level.spec_ordinal() as int,
                ),
                None => true,
            }
    }

    /// A version of the standard gives every filling of its data codewords a symbol: the
    /// codewords are had, and they find room under the mask, which is the hinted one where
    /// the hint names one of the eight and the chosen one else.
    pub proof fn lemma_symbol_is_made(
        version: Version,
        ec_level: ErrorCorrectionLevel,
        bits: Seq<bool>,
        mask_hint: Option<i32>,
    )
        requires
            version.wf(),
            version.is_standard(),
            bits.len() == 8 * version.spec_data_codewords(ec_level.spec_ordinal() as int),
        ensures
            Encoder::spec_symbol(version, ec_level, bits, mask_hint) is Some,
            0 <= Encoder::spec_symbol(version, ec_level, bits, mask_hint)->Some_0.0 < 8,
            mask_hint is Some && 0 <= mask_hint->Some_0 < 8 ==> Encoder::spec_symbol(
                version,
                ec_level,
                bits,
                mask_hint,
            )->Some_0.0 == mask_hint->Some_0,
            all_set(
                Encoder::spec_symbol(version, ec_level, bits, mask_hint)->Some_0.1,
                4 * version.spec_number() + 17,
            ),
    {
        reveal(Encoder::spec_symbol);
        reveal(has_room);
        let ordinal = ec_level.spec_ordinal() as int;
        lemma_codewords_are_had(version, ordinal, bits);
        let codewords = Encoder::spec_interleave(
            bits,
            version.spec_total_codewords(),
            version.spec_data_codewords(ordinal),
            version.spec_ec_blocks()[ordinal].spec_num_blocks() as int,
        )->Some_0;
        let laid = bytes_bits(codewords);
        assert(laid.len() == 8 * version.spec_total_codewords());
        assert forall|m: int| 0 <= m < 8 implies #[trigger] has_room(
            version.spec_number(),
            version.spec_centers(),
            ec_level.spec_bits(),
            m,
            laid,
        ) by {
            lemma_version_has_room(version, ec_level.spec_bits(), m);
        }
        lemma_chosen_mask_is_least(
            version.spec_number(),
            version.spec_centers(),
            ec_level.spec_bits(),
            laid,
            0,
        );
        lemma_symbol_is_filled(
            version.spec_number(),
            version.spec_centers(),
            ec_level.spec_bits(),
            Encoder::spec_symbol(version, ec_level, bits, mask_hint)->Some_0.0,
            laid,
        );
    }

    /// Whatever has bits for a version has a symbol: where the text has bits in its mode
    /// and a version holds them, the encoder gives the symbol of that mode and version,
    /// under one of the eight masks, with every module white or black; and where not, it
    /// gives none.
    pub proof fn lemma_payload_is_encoded(
        &self,
        content: &str,
        ec_level: ErrorCorrectionLevel,
        hints: EncodeHints,
    )
        requires
            self.wf(),
        ensures
            match self.spec_payload(content, ec_level, hints) {
                Some((mode, number, bits)) => {
                    &&& 1 <= number <= 40
                    &&& self.spec_encode(content, ec_level, hints) matches Some(s)
                    &&& s.mode == mode
                    &&& s.number == number
                    &&& 0 <= s.mask < 8
                    &&& all_set(s.modules, 4 * number + 17)
                },
                None => self.spec_encode(content, ec_level, hints) is None,
            },
    {
        reveal(Encoder::spec_payload);
        let table = self.spec_versions().table();
        let ordinal = ec_level.spec_ordinal() as int;
        match self.spec_payload(content, ec_level, hints) {
            None => {},
            Some((mode, number, bits)) => {
                let encoding = match hints.character_set {
                    Some(c) => c,
                    None => self.spec_default_encoding(),
                };
                let data = Encoder::spec_data_bits(content, mode, encoding)->Some_0;
                let header = Encoder::spec_header_bits(
                    mode,
                    hints.gs1_format,
                    Encoder::spec_eci(mode, encoding, self.spec_default_encoding()),
                );
                let payload = (header.len() + data.len()) as int;
                if hints.qr_version is None {
                    lemma_first_fitting(
                        table,
                        ordinal,
                        payload + mode.spec_character_count_bits(1),
                        1,
                    );
                    let provisional = first_fitting(
                        table,
                        ordinal,
                        payload + mode.spec_character_count_bits(1),
                        1,
                    )->Some_0;
                    lemma_first_fitting(
                        table,
                        ordinal,
                        payload + mode.spec_character_count_bits(provisional),
                        1,
                    );
                }
                assert(1 <= number <= 40);
                let version = table[number - 1];
                assert(version.wf() && version.is_standard());
                let room = version.spec_data_codewords(ordinal);
                let width = mode.spec_character_count_bits(number);
                let letters = Encoder::spec_num_letters(content, mode, data);
                lemma_terminated_fills(
                    header + crate::common::bit_array::low_bits(letters as u32, width as nat) + data,
                    room as nat,
                );
                Encoder::lemma_symbol_is_made(version, ec_level, bits, hints.qr_mask_pattern);
            },
        }
    }

    /// The number that the character count of the segment for `content` holds.
    pub open spec fn spec_letters(&self, content: &str, hints: EncodeHints) -> int {
        let encoding = match hints.character_set {
            Some(c) => c,
            None => self.spec_default_encoding(),
        };
        let mode = mode_of(content@, shift_jis_of(content@));
        match Encoder::spec_data_bits(content, mode, encoding) {
            None => 0,
            Some(data) => Encoder::spec_num_letters(content, mode, data),
        }
    }

    /// The first version that holds the text is the version of its symbol: where no
    /// version is hinted, a version holds the bits of the text with its own character
    /// count, no version before it holds them even with the character count of version
    /// 1, and the count fits its width, the encoder gives the symbol of this version, in
    /// the mode of the text and under one of the eight masks.
    pub proof fn lemma_first_holding_version_is_chosen(
        &self,
        content: &str,
        ec_level: ErrorCorrectionLevel,
        hints: EncodeHints,
        number: int,
    )
        requires
            self.wf(),
            hints.qr_version is None,
            1 <= number <= 40,
            self.spec_bits_needed(content, hints, number) is Some,
            self.spec_bits_needed(content, hints, number)->Some_0 <= 8 * standard_data_codewords(
                number,
                ec_level.spec_ordinal() as int,
            ),
            forall|k: int|
                1 <= k < number ==> self.spec_bits_needed(content, hints, 1)->Some_0 > 8
                    * #[trigger] standard_data_codewords(k, ec_level.spec_ordinal() as int),
            self.spec_letters(content, hints) < pow2(
                mode_of(content@, shift_jis_of(content@)).spec_character_count_bits(
                    number,
                ) as nat,
            ),
        ensures
            self.spec_encode(content, ec_level, hints) matches Some(s) && s.number == number
                && s.mode == mode_of(content@, shift_jis_of(content@)) && 0 <= s.mask < 8
                && all_set(s.modules, 4 * number + 17),
    {
        reveal(Encoder::spec_payload);
        let table = self.spec_versions().table();
        let ordinal = ec_level.spec_ordinal() as int;
        let encoding = match hints.character_set {
            Some(c) => c,
            None => self.spec_default_encoding(),
        };
        let mode = mode_of(content@, shift_jis_of(content@));
        let data = Encoder::spec_data_bits(content, mode, encoding)->Some_0;
        let header = Encoder::spec_header_bits(
            mode,
            hints.gs1_format,
            Encoder::spec_eci(mode, encoding, self.spec_default_encoding()),
        );
        let payload = (header.len() + data.len()) as int;
        assert(self.spec_bits_needed(content, hints, 1) == Some(
            payload + mode.spec_character_count_bits(1),
        ));
        assert(self.spec_bits_needed(content, hints, number) == Some(
            payload + mode.spec_character_count_bits(number),
        ));
        self.spec_versions().lemma_first_holding_version(ordinal, mode, payload, number);
        self.spec_versions().lemma_standard(number, ordinal);
        assert(self.spec_payload(content, ec_level, hints) is Some);
        self.lemma_payload_is_encoded(content, ec_level, hints);
    }

    /// A text that no width of the character count lets a version hold is refused: the
    /// count has one width up to version 9, one up to version 26 and one above, and where
    /// the last version of each width does not hold the bits of the text with that width,
    /// no version does.
    pub proof fn lemma_more_than_the_largest_is_too_big(
        &self,
        content: &str,
        ec_level: ErrorCorrectionLevel,
        hints: EncodeHints,
    )
        requires
            self.wf(),
            self.spec_bits_needed(content, hints, 9) matches Some(bits) ==> bits > 8
                * standard_data_codewords(9, ec_level.spec_ordinal() as int),
            self.spec_bits_needed(content, hints, 26) matches Some(bits) ==> bits > 8
                * standard_data_codewords(26, ec_level.spec_ordinal() as int),
            self.spec_bits_needed(content, hints, 40) matches Some(bits) ==> bits > 8
                * standard_data_codewords(40, ec_level.spec_ordinal() as int),
        ensures
            self.too_big(content, ec_level, hints),
            self.spec_encode(content, ec_level, hints) is None,
    {
        let ordinal = ec_level.spec_ordinal() as int;
        assert forall|n: int| 1 <= n <= 40 implies match #[trigger] self.spec_bits_needed(
            content,
            hints,
            n,
        ) {
            Some(bits) => bits > 8 * self.spec_versions().table()[n - 1].spec_data_codewords(
                ordinal,
            ),
            None => true,
        } by {
            self.spec_versions().lemma_standard(n, ordinal);
            let last = if n <= 9 {
                9int
            } else if n <= 26 {
                26int
            } else {
                40int
            };
            lemma_data_codewords_grow(n, last, ordinal);
            assert(self.spec_bits_needed(content, hints, n) == self.spec_bits_needed(
                content,
                hints,
                last,
            ));
        }
        self.lemma_too_much_data_is_refused(content, ec_level, hints);
    }

    /// Data that is too big is refused: a text that takes more bits than a symbol of any
    /// version has room for at the level has no symbol, whatever the hints.
    pub proof fn lemma_too_much_data_is_refused(
        &self,
        content: &str,
        ec_level: ErrorCorrectionLevel,
        hints: EncodeHints,
    )
        requires
            self.wf(),
            self.too_big(content, ec_level, hints),
        ensures
            self.spec_encode(content, ec_level, hints) is None,
    {
        reveal(Encoder::spec_payload);
        let table = self.spec_versions().table();
        let ordinal = ec_level.spec_ordinal() as int;
        let encoding = match hints.character_set {
            Some(c) => c,
            None => self.spec_default_encoding(),
        };
        let mode = mode_of(content@, shift_jis_of(content@));
        match Encoder::spec_data_bits(content, mode, encoding) {
            None => {},
            Some(data) => {
                let header = Encoder::spec_header_bits(
                    mode,
                    hints.gs1_format,
                    Encoder::spec_eci(mode, encoding, self.spec_default_encoding()),
                );
                let payload = (header.len() + data.len()) as int;
                match hints.qr_version {
                    Some(n) => {
                        if 1 <= n <= 40 {
                            assert(self.spec_bits_needed(content, hints, n as int) is Some);
                        }
                    },
                    None => {
                        lemma_first_fitting(
                            table,
                            ordinal,
                            payload + mode.spec_character_count_bits(1),
                            1,
                        );
                        match first_fitting(
                            table,
                            ordinal,
                            payload + mode.spec_character_count_bits(1),
                            1,
                        ) {
                            None => {},
                            Some(provisional) => {
                                lemma_first_fitting(
                                    table,
                                    ordinal,
                                    payload + mode.spec_character_count_bits(provisional),
                                    1,
                                );
                                match first_fitting(
                                    table,
                                    ordinal,
                                    payload + mode.spec_character_count_bits(provisional),
                                    1,
                                ) {
                                    None => {},
                                    Some(number) => {
                                        assert(self.spec_bits_needed(content, hints, number)
                                            is Some);
                                    },
                                }
                            },
                        }
                    },
                }
            },
        }
    }
}

} // verus!
