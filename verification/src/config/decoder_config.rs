use crate::barcode_format::BarcodeFormat;
use crate::decode_hint_type::{other_formats, product_formats, DecodeHints};
use vstd::prelude::*;

verus! {

/// What the user of the decoding tool asks for.
#[derive(Debug)]
pub struct DecoderConfig {
    /// More time may be spent to find a barcode.
    pub try_harder: bool,
    /// The image holds nothing but the barcode.
    pub pure_barcode: bool,
    /// Only the UPC and EAN families are looked for.
    pub products_only: bool,
    /// The text that is found is written to a file.
    pub dump_results: bool,
    /// The image in black and white is written to a file.
    pub dump_black_point: bool,
    /// The image is searched for several barcodes.
    pub multi: bool,
    /// One line is written for each file.
    pub brief: bool,
    /// The raw bits are written.
    pub output_raw: bool,
    /// The directories below are searched too.
    pub recursive: bool,
    /// The part of the image that is looked at: left, top, width and height.
    pub crop: Vec<i32>,
    /// The formats to look for.
    pub possible_formats: Vec<BarcodeFormat>,
    /// The images to read.
    pub input_paths: Vec<String>,
}

impl DecoderConfig {
    /// The hints for the readers: the formats of the products, or all formats, and
    /// whether to try harder and whether the image is pure.
    pub fn build_hints(&self) -> (h: DecodeHints)
        ensures
            h.try_harder == self.try_harder,
            h.pure_barcode == self.pure_barcode,
            h.possible_formats@ == if self.products_only {
                product_formats()
            } else {
                product_formats() + other_formats()
            },
    {
        DecodeHints::build_hints(self.products_only, self.try_harder, self.pure_barcode)
    }
}

} // verus!
