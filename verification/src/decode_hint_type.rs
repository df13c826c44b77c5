use crate::barcode_format::BarcodeFormat;
use crate::common::charset::Charset;
use vstd::prelude::*;

verus! {

/// The kinds of hint that a caller can give to a reader.
#[derive(Debug, PartialEq, Eq, Hash, Clone, Copy, Structural)]
pub enum DecodeHintType {
    /// A hint that only the application knows.
    OTHER,
    /// The image holds nothing but the barcode.
    PureBarcode,
    /// The image holds one of a few formats.
    PossibleFormats,
    /// More time may be spent to find a barcode.
    TryHarder,
    /// The character set of the text.
    CharacterSet,
    /// The lengths that the data may have.
    AllowedLengths,
    /// Code 39 codes have a check digit.
    AssumeCode39CheckDigit,
    /// The barcode is a GS1 barcode.
    AssumeGs1,
    /// The start and end digits of a Codabar barcode are given too.
    ReturnCodabarStartEnd,
    /// The caller wants to be told of possible result points.
    NeedResultPointCallback,
    /// The lengths that the extension of an EAN or UPC barcode may have.
    AllowedEanExtensions,
    /// The image is tried inverted too.
    AlsoInverted,
}

/// The value of a hint.
#[derive(Debug)]
pub enum DecodeHintValue {
    BOOL(bool),
    VecI32(Vec<i32>),
    VecBarcodeFormat(Vec<BarcodeFormat>),
}

impl DecodeHintValue {
    /// The truth value that the hint holds.
    pub fn get_bool(&self) -> (b: bool)
        requires
            self is BOOL,
        ensures
            b == self->BOOL_0,
    {
        match self {
            DecodeHintValue::BOOL(v) => *v,
            _ => false,
        }
    }

    /// The numbers that the hint holds.
    pub fn get_vec_i32(&self) -> (v: Option<&Vec<i32>>)
        ensures
            self is VecI32 <==> v is Some,
            v matches Some(w) ==> *w == self->VecI32_0,
    {
        match self {
            DecodeHintValue::VecI32(v) => Some(v),
            _ => None,
        }
    }

    /// The formats that the hint holds.
    pub fn get_vec_barcode_format(&self) -> (v: Option<&Vec<BarcodeFormat>>)
        ensures
            self is VecBarcodeFormat <==> v is Some,
            v matches Some(w) ==> *w == self->VecBarcodeFormat_0,
    {
        match self {
            DecodeHintValue::VecBarcodeFormat(v) => Some(v),
            _ => None,
        }
    }
}

/// The hints that the readers read, each absent or with its value.
#[derive(Debug)]
pub struct DecodeHints {
    /// The formats that the image may hold.
    pub possible_formats: Vec<BarcodeFormat>,
    /// Whether more time may be spent to find a barcode.
    pub try_harder: bool,
    /// Whether the image holds nothing but the barcode.
    pub pure_barcode: bool,
    /// The character set of text that names none for itself.
    pub character_set: Option<Charset>,
}

/// The formats of the products: the UPC and EAN families and the RSS codes.
pub open spec fn product_formats() -> Seq<BarcodeFormat> {
    seq![
        BarcodeFormat::UpcA,
        BarcodeFormat::UpcE,
        BarcodeFormat::Ean13,
        BarcodeFormat::Ean8,
        BarcodeFormat::RSS14,
        BarcodeFormat::RssExpanded,
    ]
}

/// The formats that are no product formats.
pub open spec fn other_formats() -> Seq<BarcodeFormat> {
    seq![
        BarcodeFormat::Code39,
        BarcodeFormat::Code93,
        BarcodeFormat::Code128,
        BarcodeFormat::ITF,
        BarcodeFormat::QRCode,
        BarcodeFormat::DataMatrix,
        BarcodeFormat::Aztec,
        BarcodeFormat::PDF417,
        BarcodeFormat::CodeBar,
        BarcodeFormat::MaxiCode,
    ]
}

impl DecodeHints {
    /// The hints for a decoder that is to look for the formats of the products only, or
    /// for all formats.
    pub fn build_hints(products_only: bool, try_harder: bool, pure_barcode: bool) -> (h: DecodeHints)
        ensures
            h.try_harder == try_harder,
            h.pure_barcode == pure_barcode,
            h.character_set is None,
            h.possible_formats@ == if products_only {
                product_formats()
            } else {
                product_formats() + other_formats()
            },
    {
        let mut final_possible_formats: Vec<BarcodeFormat> = Vec::new();
        final_possible_formats.push(BarcodeFormat::UpcA);
        final_possible_formats.push(BarcodeFormat::UpcE);
        final_possible_formats.push(BarcodeFormat::Ean13);
        final_possible_formats.push(BarcodeFormat::Ean8);
        final_possible_formats.push(BarcodeFormat::RSS14);
        final_possible_formats.push(BarcodeFormat::RssExpanded);
        proof {
            assert(final_possible_formats@ =~= product_formats());
        }
        if !products_only {
            final_possible_formats.push(BarcodeFormat::Code39);
            final_possible_formats.push(BarcodeFormat::Code93);
            final_possible_formats.push(BarcodeFormat::Code128);
            final_possible_formats.push(BarcodeFormat::ITF);
            final_possible_formats.push(BarcodeFormat::QRCode);
            final_possible_formats.push(BarcodeFormat::DataMatrix);
            final_possible_formats.push(BarcodeFormat::Aztec);
            final_possible_formats.push(BarcodeFormat::PDF417);
            final_possible_formats.push(BarcodeFormat::CodeBar);
            final_possible_formats.push(BarcodeFormat::MaxiCode);
            proof {
                assert(final_possible_formats@ =~= product_formats() + other_formats());
            }
        }
        DecodeHints {
            possible_formats: final_possible_formats,
            try_harder,
            pure_barcode,
            character_set: None,
        }
    }
}

} // verus!
