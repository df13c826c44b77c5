use crate::common::charset::Charset;
use crate::qrcode::decoder::error_correction_level::ErrorCorrectionLevel;
use vstd::prelude::*;

verus! {

/// The kinds of hint that a caller can give to a writer.
#[derive(Debug, PartialEq, Eq, Hash, Clone, Copy, Structural)]
pub enum EncodeHintType {
    /// The degree of error correction to use.
    ErrorCorrection,
    /// The character set in which the text is turned into bytes.
    CharacterSet,
    /// The shape of a Data Matrix symbol.
    DataMatrixShape,
    /// The margin, in pixels, around the barcode.
    MARGIN,
    /// Whether to use the compact mode of PDF417.
    Pdf417Compact,
    /// The compaction mode of PDF417.
    Pdf417Compaction,
    /// The least and greatest number of rows and columns of PDF417.
    Pdf417Dimensions,
    /// The number of layers of an Aztec code.
    AztecLayers,
    /// The exact version of the QR code.
    QRVersion,
    /// The mask pattern of the QR code.
    QRMaskPattern,
    /// Whether the data is to be encoded to the GS1 standard.
    Gs1Format,
    /// The code set that Code 128 is forced to use.
    ForceCodeSet,
}

/// The hints that the writer of QR codes reads, each absent or with its value.
#[derive(Debug, Clone, Copy)]
pub struct EncodeHints {
    /// The level of error correction; L where none is given.
    pub error_correction: Option<ErrorCorrectionLevel>,
    /// The character set for text that is written as bytes.
    pub character_set: Option<Charset>,
    /// The width of the quiet zone around the symbol, in modules.
    pub margin: Option<usize>,
    /// The version the symbol is to have.
    pub qr_version: Option<usize>,
    /// The mask the symbol is to have; -1 or another number that names no mask leaves
    /// the choice to the encoder.
    pub qr_mask_pattern: Option<i32>,
    /// Whether the text is GS1 formatted.
    pub gs1_format: bool,
}

impl EncodeHints {
    /// No hint at all.
    pub fn new() -> (h: EncodeHints)
        ensures
            h.error_correction is None,
            h.character_set is None,
            h.margin is None,
            h.qr_version is None,
            h.qr_mask_pattern is None,
            !h.gs1_format,
    {
        EncodeHints {
            error_correction: None,
            character_set: None,
            margin: None,
            qr_version: None,
            qr_mask_pattern: None,
            gs1_format: false,
        }
    }
}

} // verus!
