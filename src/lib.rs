//! A small HTTP/1.1 client core: request encoding, response decoding and
//! address selection, with the byte-level framing proved correct.
use vstd::prelude::*;

pub mod error;
pub mod text;
pub mod header_map;
pub mod response;
pub mod decoder;
pub mod url;
pub mod request;
pub mod address;
pub mod round_trip;

pub use error::RequestError;
