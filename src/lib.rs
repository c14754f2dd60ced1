//! A decoder for bencode, the length-prefixed encoding of integers, byte
//! strings, lists and dictionaries.
//!
//! `value` holds the value tree and its mathematical model, `grammar` the
//! grammar as spec functions over byte sequences, `decode` the executable
//! rules proved against it, and `laws` the properties proved of the grammar.
pub mod value;
pub mod grammar;
pub mod decode;
pub mod laws;

pub use value::{BValue, Node, ErrorKind, DecodeError};
pub use decode::{parse, parse_number, parse_string, parse_bytes, parse_length, parse_list, parse_dict};

