pub mod bit_matrix_parser;
pub mod data_block;
pub mod decoded_bit_stream_parser;
pub mod decoder;
pub mod error_correction_level;
pub mod format_information;
pub mod mode;
pub mod version;
pub mod version_table;

pub use bit_matrix_parser::BitMatrixParser;
pub use decoder::Decoder;
pub use error_correction_level::ErrorCorrectionLevel;
pub use format_information::FormatInformation;
pub use mode::Mode;
pub use version::{Version, Versions};
