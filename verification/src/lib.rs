//! The verified core of ZipVoice speech generation: phoneme tokenization,
//! text-condition layout, silence removal, the noise generator, the
//! `VOCOSRS1` tensor format and the index arithmetic of GGUF tensors and
//! attention views.
pub mod attention_layout;
pub mod gguf_layout;
pub mod le_bytes;
pub mod model_config;
pub mod rng;
pub mod signal;
pub mod silence;
pub mod text;
pub mod text_condition;
pub mod tokenizer;
pub mod vbin;
