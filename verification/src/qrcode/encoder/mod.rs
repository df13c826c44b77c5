pub mod block_pair;
pub mod byte_matrix;
pub mod cells;
pub mod encoder;
pub mod encoder_blocks;
pub mod encoder_kanji;
pub mod encoder_laws;
pub mod encoder_symbol;
pub mod mask_util;
pub mod matrix_util;
pub mod qrcode;
pub mod room;

pub use block_pair::BlockPair;
pub use byte_matrix::ByteMatrix;
pub use encoder::Encoder;
pub use mask_util::MaskUtil;
pub use matrix_util::MatrixUtil;
pub use qrcode::QRCode;
