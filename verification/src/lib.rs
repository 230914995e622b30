//! Text planning, array decoding and scheduling behind a speech-synthesis deployment.
pub mod bench;
pub mod chunks;
pub mod dump;
pub mod half;
pub mod mimi;
pub mod npy;
pub mod npz;
pub mod package;
pub mod params;
pub mod plan;
pub mod prompt;
pub mod protocol;
pub mod sentences;
pub mod serve;
pub mod synth;
pub mod tensors;
pub mod text;
pub mod voice;
pub mod wasm_demo;
