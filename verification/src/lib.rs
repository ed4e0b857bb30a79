//! Decoding of NCM music containers.
//!
//! A container wraps an ordinary audio file: a magic number, an encrypted
//! stream key, encrypted JSON metadata, a cover image and the audio itself,
//! masked by a key stream that depends on nothing but the stream key and the
//! offset of each byte.

pub mod aes;
pub mod batch;
pub mod cli;
pub mod ncm;
pub mod output;
pub mod report;
pub mod text;
