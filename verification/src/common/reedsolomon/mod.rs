pub mod code_laws;
pub mod generic_gf;
pub mod generic_gf_poly;
pub mod qr_field;
pub mod reed_solomon_decoder;
pub mod reed_solomon_encoder;

pub use generic_gf::{GenericGF, GenericGFEnum};
pub use generic_gf_poly::GenericGFPoly;
pub use reed_solomon_decoder::ReedSolomonDecoder;
pub use reed_solomon_encoder::ReedSolomonEncoder;
