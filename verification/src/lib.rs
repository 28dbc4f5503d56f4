//! A codec for a compact, recursive key-value tree format, together with a
//! path-based accessor for reading values out of a decoded tree.
//!
//! A tree is either a scalar byte string or a group of named children. The
//! wire format is length-prefixed ("netstring-style"): every key and scalar
//! token is written as its decimal byte length, a space, and then exactly
//! that many raw bytes, so token content may hold arbitrary bytes, including
//! spaces and the bracket markers. Groups are delimited by the structural
//! tokens `[` and `]`.

pub mod codec;
pub mod errors;
pub mod laws;
pub mod path;
pub mod pretty;
pub mod token;
pub mod tree;

pub use codec::from_byte_vec;
pub use codec::parse_list;
pub use codec::to_byte_vec;
pub use codec::write_list;
pub use errors::DecodeError;
pub use errors::PathError;
pub use pretty::pretty_print;
pub use pretty::write_tree;
pub use token::split_string;
pub use token::Token;
pub use token::TokenView;
pub use tree::TreeView;
pub use tree::ValueType;
