//! The kinds of error with which decoding fails, on each input: want of
//! bytes inside a field is `UnexpectedEof`, a field whose bytes are all
//! there but wrong is `InvalidData`, an unknown frame kind `InvalidInput`.
use vstd::prelude::*;
use crate::bytes::{be16_value, be32_value};
use crate::codec::decode::remaining;
use crate::codec::format::{contexts_ok, contexts_wire, lemma_contexts_unique, utf8, MAX_BODY};
use crate::error::ErrorKind;
use crate::types;

verus! {

/// Some string has these UTF-8 bytes.
pub open spec fn is_utf8(b: Seq<u8>) -> bool {
    exists|c: Seq<char>| utf8(c) == b
}

/// The input ends inside the length-prefixed string at `pos`.
pub open spec fn u16_string_truncated(s: Seq<u8>, pos: int) -> bool {
    s.len() < pos + 2 || s.len() < pos + 2 + be16_value(s, pos)
}

/// Admissible contexts are encoded at `pos`.
pub open spec fn contexts_at(s: Seq<u8>, pos: int) -> bool {
    exists|c: Seq<(Seq<u8>, Seq<u8>)>|
        contexts_ok(c) && #[trigger] contexts_wire(c).is_prefix_of(remaining(s, pos))
}

/// Where the contexts encoded at `pos` end.
pub open spec fn contexts_end(s: Seq<u8>, pos: int) -> int {
    pos + contexts_wire(
        choose|c: Seq<(Seq<u8>, Seq<u8>)>|
            contexts_ok(c) && #[trigger] contexts_wire(c).is_prefix_of(remaining(s, pos)),
    ).len()
}

/// A string field fails for want of bytes, or else for bad UTF-8.
pub open spec fn u16_string_error(s: Seq<u8>, pos: int) -> ErrorKind {
    if u16_string_truncated(s, pos) {
        ErrorKind::UnexpectedEof
    } else {
        ErrorKind::InvalidData
    }
}

/// A table fails for want of bytes in its layout, or else for bad UTF-8.
pub open spec fn dtab_error(s: Seq<u8>, pos: int) -> ErrorKind {
    if contexts_at(s, pos) {
        ErrorKind::InvalidData
    } else {
        ErrorKind::UnexpectedEof
    }
}

/// The error kind with which a `Tdispatch` body fails: want of bytes in
/// the contexts, the destination or the table; bad UTF-8 in the
/// destination or the table.
pub open spec fn tdispatch_error(s: Seq<u8>) -> ErrorKind {
    if !contexts_at(s, 0) {
        ErrorKind::UnexpectedEof
    } else {
        let p = contexts_end(s, 0);
        if u16_string_truncated(s, p) {
            ErrorKind::UnexpectedEof
        } else if !is_utf8(s.subrange(p + 2, p + 2 + be16_value(s, p))) {
            ErrorKind::InvalidData
        } else {
            dtab_error(s, p + 2 + be16_value(s, p))
        }
    }
}

/// An `Rdispatch` body fails for want of bytes up to the end of its
/// contexts, or else for a bad status or bad UTF-8.
pub open spec fn rdispatch_error(s: Seq<u8>) -> ErrorKind {
    if s.len() > 0 && contexts_at(s, 1) {
        ErrorKind::InvalidData
    } else {
        ErrorKind::UnexpectedEof
    }
}

/// The error kind with which the body of a frame of kind `tpe` fails.
pub open spec fn frame_error(tpe: i8, s: Seq<u8>) -> ErrorKind {
    if tpe == types::TREQ || tpe == types::TINIT || tpe == types::RINIT {
        ErrorKind::UnexpectedEof
    } else if tpe == types::RREQ {
        if s.len() == 0 { ErrorKind::UnexpectedEof } else { ErrorKind::InvalidData }
    } else if tpe == types::TDISPATCH {
        tdispatch_error(s)
    } else if tpe == types::RDISPATCH {
        rdispatch_error(s)
    } else if tpe == types::TDISCARDED {
        if s.len() < 3 { ErrorKind::UnexpectedEof } else { ErrorKind::InvalidData }
    } else if tpe == types::TLEASE {
        if s.len() < 9 { ErrorKind::UnexpectedEof } else { ErrorKind::InvalidData }
    } else if types::is_frame_code(tpe) {
        ErrorKind::InvalidData
    } else {
        ErrorKind::InvalidInput
    }
}

/// The frame kind code that a byte carries.
pub open spec fn byte_kind(b: u8) -> i8 {
    if b >= 0x80 {
        (b - 256) as i8
    } else {
        b as i8
    }
}

/// The error kind with which a message without length prefix fails.
pub open spec fn message_error(s: Seq<u8>) -> ErrorKind {
    if s.len() < 4 {
        ErrorKind::UnexpectedEof
    } else {
        frame_error(byte_kind(s[0]), s.subrange(4, s.len() as int))
    }
}

/// The error kind with which reading a whole message fails: a short or
/// out-of-range length prefix, want of the bytes it announces, or the
/// error of the message it frames.
pub open spec fn read_error(s: Seq<u8>) -> ErrorKind {
    if s.len() < 4 {
        ErrorKind::UnexpectedEof
    } else if be32_value(s, 0) < 4 || be32_value(s, 0) > MAX_BODY + 4 {
        ErrorKind::InvalidData
    } else if s.len() < 4 + be32_value(s, 0) {
        ErrorKind::UnexpectedEof
    } else {
        message_error(s.subrange(4, 4 + be32_value(s, 0)))
    }
}

/// Contexts found at `pos` are the ones whose end `contexts_end` names.
pub proof fn lemma_contexts_end(s: Seq<u8>, pos: int, c: Seq<(Seq<u8>, Seq<u8>)>)
    requires
        contexts_ok(c),
        contexts_wire(c).is_prefix_of(remaining(s, pos)),
    ensures
        contexts_at(s, pos),
        contexts_end(s, pos) == pos + contexts_wire(c).len(),
{
    let chosen = choose|d: Seq<(Seq<u8>, Seq<u8>)>|
        contexts_ok(d) && #[trigger] contexts_wire(d).is_prefix_of(remaining(s, pos));
    lemma_contexts_unique(chosen, c, remaining(s, pos));
}

} // verus!
