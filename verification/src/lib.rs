//! Base64 between bytes and text.
//!
//! Bytes are encoded in the standard alphabet ([`base64_encode_bytes`]), in the URL-safe
//! alphabet ([`base64url_encode_bytes`]) or in lines of 76 characters for MIME
//! ([`base64_encode_splitlines_bytes`]); each encoder has a twin that takes a string and
//! encodes its UTF-8 bytes. [`base64_decode`] reads both alphabets and passes over line
//! breaks. It refuses no text: a byte that is no symbol counts as the value 0, and
//! symbols that do not fill a last group of four are left out.
//!
//! Every function's contract gives its result as a function of its argument, over the
//! specifications in [`encode`], [`decode`] and [`lines`]. What holds of them together,
//! such as that decoding undoes encoding, is proved in [`laws`].

pub mod alphabet;
pub mod decode;
pub mod encode;
pub mod laws;
pub mod lines;
pub mod table;
pub mod text;

pub use decode::{base64_decode, base64_decode_str};
pub use encode::{base64_encode, base64_encode_bytes, base64url_encode, base64url_encode_bytes};
pub use lines::{base64_encode_splitlines, base64_encode_splitlines_bytes};
pub use table::base64_table_printer;
