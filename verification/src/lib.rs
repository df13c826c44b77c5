pub mod barcode_format;
pub mod binarizer;
pub mod binary_bitmap;
pub mod common;
pub mod config;
pub mod datamatrix;
pub mod decode_hint_type;
pub mod encode_hint_type;
pub mod error;
pub mod inverted_luminance_source;
pub mod luminance_source;
pub mod multi_format_reader;
pub mod multi_format_writer;
pub mod qrcode;
pub mod result_metadata_type;
pub mod types;
pub mod writer;

pub use crate::barcode_format::BarcodeFormat;
pub use crate::binarizer::Binarizer;
pub use crate::binary_bitmap::BinaryBitmap;
pub use crate::common::HybridBinarizer;
pub use crate::decode_hint_type::{DecodeHintType, DecodeHintValue, DecodeHints};
pub use crate::encode_hint_type::{EncodeHintType, EncodeHints};
pub use crate::error::{Error, ErrorKind, ResultError};
pub use crate::inverted_luminance_source::InvertedLuminanceSource;
pub use crate::luminance_source::LuminanceSource;
pub use crate::multi_format_reader::MultiFormatReader;
pub use crate::multi_format_writer::MultiFormatWriter;
pub use crate::qrcode::QRCodeReader;
pub use crate::result_metadata_type::{ResultMetadataType, ResultMetadataValue};
pub use crate::writer::Writer;
