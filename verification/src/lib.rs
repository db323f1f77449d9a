//! TOON (Token-Oriented Object Notation) is a line-oriented,
//! indentation-based textual encoding of the JSON data model.
//!
//! The crate offers a [`Value`] tree, an encoder that turns a value into
//! TOON text, a decoder that parses TOON text back into a value, and
//! proofs that relate the two directions.

pub mod text;
pub mod value;
pub mod options;
pub mod error;
pub mod ser;
pub mod de;
pub mod laws;

pub use de::{decode, decode_bytes, Deserializer};
pub use error::{Error, ErrorKind};
pub use options::{DecoderOptions, Delimiter, EncoderOptions, KeyFolding, PathExpansion};
pub use ser::{encode, encode_bytes, Serializer};
pub use value::{Number, ObjMap, Value};
