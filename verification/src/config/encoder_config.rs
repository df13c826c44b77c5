use crate::barcode_format::BarcodeFormat;
use vstd::prelude::*;

verus! {

/// What the user of the encoding tool asks for.
#[derive(Debug)]
pub struct EncoderConfig {
    /// The format to encode.
    pub barcode_format: BarcodeFormat,
    /// The format of the image that is written, such as PNG.
    pub image_format: String,
    /// The name of the file that is written, without its ending.
    pub output_file_base: String,
    /// The width of the image.
    pub width: usize,
    /// The height of the image.
    pub height: usize,
    /// The name of the level of error correction.
    pub error_correction_level: String,
    /// The text to encode.
    pub contents: String,
}

} // verus!
