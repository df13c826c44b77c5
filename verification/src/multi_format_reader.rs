use crate::barcode_format::BarcodeFormat;
use crate::binarizer::Binarizer;
use crate::binary_bitmap::BinaryBitmap;
use crate::common::bit_matrix::BitMatrix;
use crate::common::decoder_result::DecoderResult;
use crate::decode_hint_type::{other_formats, product_formats, DecodeHints};
use crate::error::Error;
use crate::luminance_source::{fails_with, LuminanceSource};
use crate::qrcode::qrcode_reader::QRCodeReader;
use vstd::prelude::*;

verus! {

/// The reader that hands an image to the readers of the formats that the hints name.
pub struct MultiFormatReader {
    hints: DecodeHints,
    readers: Vec<BarcodeFormat>,
    qr_code: QRCodeReader,
}

/// Whether `format` is one of `formats`.
pub open spec fn names(formats: Seq<BarcodeFormat>, format: BarcodeFormat) -> bool {
    exists|i: int| 0 <= i < formats.len() && formats[i] == format
}

/// The formats whose readers are tried for the hinted formats `formats`: of the formats
/// that have a reader those that are named; where no format is named, all that have a
/// reader. Only the QR code has one.
pub open spec fn readers_for(formats: Seq<BarcodeFormat>) -> Seq<BarcodeFormat> {
    if formats.len() == 0 || names(formats, BarcodeFormat::QRCode) {
        seq![BarcodeFormat::QRCode]
    } else {
        Seq::empty()
    }
}

impl MultiFormatReader {
    /// The hints of the reader.
    pub closed spec fn spec_hints(&self) -> DecodeHints {
        self.hints
    }

    /// The formats whose readers are tried, in their order.
    pub closed spec fn spec_readers(&self) -> Seq<BarcodeFormat> {
        self.readers@
    }

    /// The reader of QR codes.
    pub closed spec fn spec_qr_code(&self) -> QRCodeReader {
        self.qr_code
    }

    /// A reader that tries no reader yet. Its hints name every format and no character
    /// set, and ask neither for more effort nor for a pure image; its reader of QR codes
    /// knows the forty versions.
    pub fn new() -> (r: MultiFormatReader)
        ensures
            r.spec_readers().len() == 0,
            r.spec_hints().possible_formats@ == product_formats() + other_formats(),
            !r.spec_hints().try_harder,
            !r.spec_hints().pure_barcode,
            r.spec_hints().character_set is None,
            r.spec_qr_code().spec_decoder().spec_versions().wf(),
    {
        MultiFormatReader {
            hints: DecodeHints::build_hints(false, false, false),
            readers: Vec::new(),
            qr_code: QRCodeReader::new(),
        }
    }

    /// Whether `format` is one of `formats`.
    pub fn contains(formats: &Vec<BarcodeFormat>, format: BarcodeFormat) -> (b: bool)
        ensures
            b == names(formats@, format),
    {
        let mut i: usize = 0;
        while i < formats.len()
            invariant
                i <= formats@.len(),
                forall|k: int| 0 <= k < i ==> formats@[k] != format,
            decreases formats@.len() - i,
        {
            if formats[i] == format {
                return true;
            }
            i += 1;
        }
        false
    }

    /// Takes the hints for the images to come, and with them the readers to try.
    pub fn set_hints(&mut self, hints: DecodeHints)
        ensures
            final(self).spec_hints() == hints,
            final(self).spec_readers() == readers_for(hints.possible_formats@),
            final(self).spec_qr_code() == old(self).spec_qr_code(),
    {
        let mut readers: Vec<BarcodeFormat> = Vec::new();
        if hints.possible_formats.len() == 0 || MultiFormatReader::contains(
            &hints.possible_formats,
            BarcodeFormat::QRCode,
        ) {
            readers.push(BarcodeFormat::QRCode);
        }
        proof {
            assert(readers@ =~= readers_for(hints.possible_formats@));
        }
        self.hints = hints;
        self.readers = readers;
    }

    /// Whether `r` is what the readers find in `image`: without a reader nothing is
    /// found; with the reader of QR codes, what it reads.
    pub open spec fn finds(&self, image: BitMatrix, r: Result<DecoderResult, Error>) -> bool {
        &&& self.spec_readers().len() == 0 ==> (r matches Err(e) && e is NotFoundException)
        &&& self.spec_readers() == seq![BarcodeFormat::QRCode] ==> self.spec_qr_code().reads(
            image,
            self.spec_hints().character_set,
            r,
        )
    }

    /// What the barcode in `image` holds, where the image holds nothing but the barcode.
    /// The first of the readers is tried. Without a reader nothing is found.
    pub fn decode_matrix(&self, image: &BitMatrix) -> (r: Result<DecoderResult, Error>)
        requires
            image.wf(),
        ensures
            self.finds(*image, r),
    {
        if self.readers.len() == 0 {
            return Err(Error::NotFoundException("Not found any readers!".to_owned()));
        }
        if self.readers[0] == BarcodeFormat::QRCode {
            return self.qr_code.decode_matrix(image, &self.hints);
        }
        Err(Error::NotFoundException("Cannot decode...".to_owned()))
    }

    /// Whether `r` is what the readers find in the image that `binarizer` makes: what
    /// they find in the matrix that the binarizer gives for the image in black and white.
    /// Where the binarizer fails, its error is handed on.
    pub open spec fn finds_in_image<B: Binarizer<S>, S: LuminanceSource>(
        &self,
        binarizer: B,
        r: Result<DecoderResult, Error>,
    ) -> bool {
        exists|given: Result<BitMatrix, Error>| #[trigger]
            binarizer.makes_matrix(given) && match given {
                Ok(matrix) => matrix.wf() && self.finds(matrix, r),
                Err(e) => fails_with(r, e),
            }
    }

    /// What the barcode in the image of `image` holds: the image is turned into black
    /// and white and handed to the first of the readers. Where the binarizer fails,
    /// its error is handed on.
    pub fn decode_bitmap<B: Binarizer<S>, S: LuminanceSource>(
        &self,
        image: &mut BinaryBitmap<B, S>,
    ) -> (r: Result<DecoderResult, Error>)
        ensures
            self.finds_in_image(old(image).spec_binarizer(), r),
    {
        let given = image.getBlackMatrix();
        let ghost asked = given;
        let r = match given {
            Ok(matrix) => self.decode_matrix(&matrix),
            Err(e) => Err(e),
        };
        proof {
            assert(old(image).spec_binarizer().makes_matrix(asked));
        }
        r
    }
}

} // verus!
