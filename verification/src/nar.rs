//! The Nix ARchive (NAR) format: its event stream, encoder and decoder.
pub mod decoding;
pub mod encoding;
pub mod laws;
pub mod state;
pub mod stream;
pub mod wire;
