//! Encoding and decoding of mux frames.
//!
//! All integers on the wire are big-endian. A frame is its length in four
//! bytes, the kind byte, the three-byte tag and a body whose layout depends
//! on the kind.
pub mod decode;
pub mod encode;
pub mod failure;
pub mod format;
pub mod size;

pub use decode::{
    decode_contexts, decode_dtab, decode_frame, decode_frame_length, decode_headers, decode_init,
    decode_message, decode_rdispatch, decode_rerr, decode_rreq, decode_tag, decode_tdiscarded,
    decode_tdispatch, decode_tlease_duration, decode_treq, decode_u16_string, read_message,
};
pub use encode::{
    encode_contexts, encode_dtab, encode_frame, encode_headers, encode_init, encode_message,
    encode_rdispatch, encode_rerr, encode_rreq, encode_tag, encode_tdiscarded,
    encode_tdispatch, encode_tlease_duration, encode_treq, encode_u16_string, write_message,
};
