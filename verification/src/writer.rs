use crate::barcode_format::BarcodeFormat;
use crate::common::bit_matrix::BitMatrix;
use crate::encode_hint_type::EncodeHints;
use crate::error::Error;
use vstd::prelude::*;

verus! {

/// What turns text into the image of a barcode.
pub trait Writer {
    /// The barcode of the given format for `contents`, at least `width` cells wide and
    /// `height` high, under no hint.
    fn encode(&self, contents: &str, format: &BarcodeFormat, width: usize, height: usize) -> Result<
        BitMatrix,
        Error,
    >;

    /// The barcode of the given format for `contents`, at least `width` cells wide and
    /// `height` high, under the given hints.
    fn encode_hints(
        &self,
        contents: &str,
        format: &BarcodeFormat,
        width: usize,
        height: usize,
        hints: &EncodeHints,
    ) -> Result<BitMatrix, Error>;
}

} // verus!
