//! Framing of SILK v3 speech-codec containers and normalisation of decoded
//! audio into canonical 16-bit mono PCM.
pub mod pcm;
pub mod silk;

pub use pcm::AudioConverter;
pub use silk::{decode_silk, encode_silk, SilkEngine, SilkError};
