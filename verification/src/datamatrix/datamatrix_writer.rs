use crate::barcode_format::BarcodeFormat;
use crate::common::bit_matrix::BitMatrix;
use crate::encode_hint_type::EncodeHints;
use crate::error::Error;
use crate::writer::Writer;
use vstd::prelude::*;

verus! {

/// The writer of Data Matrix symbols, which writes none: it asks for a matrix without
/// cells, and that is refused.
pub struct DataMatrixWriter;

impl DataMatrixWriter {
    pub fn new() -> (w: DataMatrixWriter) {
        DataMatrixWriter {  }
    }

    /// Asks for a matrix without cells, which is refused.
    pub fn empty_symbol() -> (r: Result<BitMatrix, Error>)
        ensures
            r matches Err(e) && e is IllegalArgumentException,
    {
        BitMatrix::new2(0, 0)
    }
}

impl Writer for DataMatrixWriter {
    fn encode(&self, contents: &str, format: &BarcodeFormat, width: usize, height: usize) -> (r:
        Result<BitMatrix, Error>)
        ensures
            r matches Err(e) && e is IllegalArgumentException,
    {
        DataMatrixWriter::empty_symbol()
    }

    fn encode_hints(
        &self,
        contents: &str,
        format: &BarcodeFormat,
        width: usize,
        height: usize,
        hints: &EncodeHints,
    ) -> (r: Result<BitMatrix, Error>)
        ensures
            r matches Err(e) && e is IllegalArgumentException,
    {
        DataMatrixWriter::empty_symbol()
    }
}

} // verus!
