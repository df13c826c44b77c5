pub mod decoder_config;
pub mod encoder_config;

pub use decoder_config::DecoderConfig;
pub use encoder_config::EncoderConfig;
