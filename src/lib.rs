//! Decoder for the bencode serialization format: integers, byte strings,
//! lists and dictionaries.
//!
//! Dictionary keys must strictly ascend by default (`KeyOrder::Strict`); a
//! caller may instead accept any order without repeated keys
//! (`KeyOrder::Lenient`). Nesting is limited to `MAX_DEPTH` levels, and every
//! error carries the offset at which it was found.
//!
//! The grammar is stated as spec functions in `grammar`, the decoder in
//! `decode` is proved to compute exactly what the grammar says, and
//! `encoding` states the canonical encoding and the laws that connect it to
//! the decoder.

pub mod value;
pub mod grammar;
pub mod decode;
pub mod encoding;

pub use decode::{parse, parse_dict, parse_int, parse_list, parse_str, parse_value, parse_with};
pub use value::{DecodeError, ErrorKind, KeyOrder, Value, MAX_DEPTH};

