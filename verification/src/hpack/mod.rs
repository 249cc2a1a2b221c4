//! HPACK, the header compression of HTTP/2.

pub mod decoder;
pub mod encoder;
pub mod error;
pub mod field;
pub mod huffman;
pub mod integer;
pub mod laws;
pub mod prefix;
pub mod static_table;
pub mod table;

pub use self::decoder::{Decoder, DecoderView};
pub use self::encoder::Encoder;
pub use self::error::{DecoderError, NeedMore};
pub use self::field::{Field, FieldView};
