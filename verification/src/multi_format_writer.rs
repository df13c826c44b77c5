use crate::barcode_format::BarcodeFormat;
use crate::common::bit_matrix::BitMatrix;
use crate::datamatrix::datamatrix_writer::DataMatrixWriter;
use crate::encode_hint_type::EncodeHints;
use crate::error::Error;
use crate::qrcode::encoder::encoder::Encoder;
use crate::qrcode::qrcode_writer::QRCodeWriter;
use crate::writer::Writer;
use vstd::prelude::*;

verus! {

/// The writer that hands a text to the writer of its format.
pub struct MultiFormatWriter {
    qr_code: QRCodeWriter,
    data_matrix: DataMatrixWriter,
}

impl MultiFormatWriter {
    /// The formats that have a writer.
    pub fn get_encoders() -> (formats: Vec<BarcodeFormat>)
        ensures
            formats@ == seq![BarcodeFormat::QRCode, BarcodeFormat::DataMatrix],
    {
        let mut maps: Vec<BarcodeFormat> = Vec::new();
        maps.push(BarcodeFormat::QRCode);
        maps.push(BarcodeFormat::DataMatrix);
        proof {
            assert(maps@ =~= seq![BarcodeFormat::QRCode, BarcodeFormat::DataMatrix]);
        }
        maps
    }

    /// The writer of QR codes.
    pub closed spec fn spec_qr_code(&self) -> QRCodeWriter {
        self.qr_code
    }

    /// A writer with the writers of the formats that have one.
    pub fn new() -> (w: MultiFormatWriter)
        ensures
            w.spec_qr_code().spec_encoder().wf(),
    {
        MultiFormatWriter { qr_code: QRCodeWriter::new(), data_matrix: DataMatrixWriter::new() }
    }

    /// Whether `r` is what the writer gives for `contents` in the given format: a QR code
    /// is what the writer of QR codes gives; for Data Matrix a matrix without cells is
    /// asked for, which is refused; a format without a writer is refused.
    pub open spec fn writes(
        &self,
        contents: &str,
        format: BarcodeFormat,
        width: usize,
        height: usize,
        hints: EncodeHints,
        r: Result<BitMatrix, Error>,
    ) -> bool {
        if format == BarcodeFormat::QRCode {
            self.spec_qr_code().writes(contents, format, width, height, hints, r)
        } else if format == BarcodeFormat::DataMatrix {
            r matches Err(e) && e is IllegalArgumentException
        } else {
            r matches Err(e) && e is WriterException
        }
    }

    /// The barcode of the given format for `contents`: a QR code is written by the writer
    /// of QR codes; for Data Matrix no symbol is written yet; a format without a writer
    /// is refused.
    pub fn encode_as(
        &self,
        contents: &str,
        format: &BarcodeFormat,
        width: usize,
        height: usize,
        hints: &EncodeHints,
    ) -> (r: Result<BitMatrix, Error>)
        ensures
            self.writes(contents, *format, width, height, *hints, r),
    {
        if *format == BarcodeFormat::QRCode {
            self.qr_code.encode_symbol(contents, format, width, height, hints)
        } else if *format == BarcodeFormat::DataMatrix {
            DataMatrixWriter::empty_symbol()
        } else {
            Err(Error::WriterException("No encoder available for the format".to_owned()))
        }
    }
}

impl Writer for MultiFormatWriter {
    fn encode(&self, contents: &str, format: &BarcodeFormat, width: usize, height: usize) -> (r:
        Result<BitMatrix, Error>)
        ensures
            self.writes(contents, *format, width, height, Encoder::no_hints(), r),
    {
        let hints = EncodeHints::new();
        self.encode_as(contents, format, width, height, &hints)
    }

    fn encode_hints(
        &self,
        contents: &str,
        format: &BarcodeFormat,
        width: usize,
        height: usize,
        hints: &EncodeHints,
    ) -> (r: Result<BitMatrix, Error>)
        ensures
            self.writes(contents, *format, width, height, *hints, r),
    {
        self.encode_as(contents, format, width, height, hints)
    }
}

} // verus!
