//! The container format.

pub mod audio;
pub mod base64;
pub mod cipher;
pub mod container;
pub mod error;
pub mod json;
pub mod laws;
pub mod metadata;
pub mod opening;

pub use audio::AudioFormat;
pub use base64::decode_base64;
pub use cipher::StreamCipher;
pub use container::{Decoder, Headers, Transfer};
pub use error::{NcmError, Result};
pub use json::extract_json_string;
pub use metadata::{decode_metadata, Metadata};
pub use opening::{Opening, Step};
