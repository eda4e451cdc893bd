//! A codec for a textual, length-prefixed, CRLF-framed wire protocol in its
//! two revisions: `v2` with five leaf kinds and arrays, and `v3` with maps,
//! sets, pushes, attributes and further leaves.
//!
//! Decoding reads one frame from the front of a byte buffer and reports how
//! many bytes it took; encoding writes a frame as bytes. Every contract is
//! stated over a mathematical reading of the buffer: `common::scan` says
//! where a line ends, and each revision says beside its lexer and its builder
//! which token and which frame start at a place.

pub mod common;
pub mod decode;
pub mod encode;
pub mod v2;
pub mod v3;

pub use common::{
    EncodeLen, EncodeWithWriter, Encoder, Error, NumberError, ParseIter, Parser, Remaining,
};
pub use decode::decode;
pub use encode::encode;
