pub mod bit_array;
pub mod bit_lemmas;
pub mod bit_matrix;
pub mod bit_source;
pub mod black_and_white;
pub mod bit_text;
pub mod charset;
pub mod decoder_result;
pub mod global_histogram_binarizer;
pub mod hybrid_binarizer;
pub mod reedsolomon;
pub mod system_times;

pub use bit_array::BitArray;
pub use bit_matrix::BitMatrix;
pub use charset::Charset;
pub use decoder_result::DecoderResult;
pub use global_histogram_binarizer::GlobalHistogramBinarizer;
pub use hybrid_binarizer::HybridBinarizer;
pub use reedsolomon::{GenericGF, GenericGFEnum, ReedSolomonDecoder, ReedSolomonEncoder};
pub use system_times::SystemTimes;
