pub mod check_bits;
pub mod decoder;
pub mod encoder;
pub mod format_read_back;
pub mod image_read_back;
pub mod qrcode_reader;
pub mod qrcode_writer;
pub mod text_read_back;
pub mod written_and_read;

pub use qrcode_reader::QRCodeReader;
pub use qrcode_writer::QRCodeWriter;
