//! Decoding of mux messages from bytes.
//!
//! A decoder of a field that sits inside a frame reads at a position and
//! returns the value with the position after it. Its contract says that the
//! value's encoding is exactly the bytes read, and that it fails only when
//! no admissible value's encoding starts at that position. A decoder of a
//! whole frame body consumes all its input.
use vstd::prelude::*;
use vstd::slice::slice_to_vec;
use vstd::utf8::{decode_utf8, decode_utf8_encode_utf8, encode_utf8_valid_utf8, valid_utf8};
use crate::bytes::{
    be16, be16_value, be32, be32_value, lemma_be16_value, lemma_be32_value, read_be16, read_be32,
    read_be64,
};
use crate::codec::format::{
    frame_body_wire, frame_canonical, frame_encodable, init_entry, init_entry_fn, init_entry_ok,
    init_entry_ok_fn, init_ok, init_wire, kind_byte, lease_wire, lemma_flatten_prefix_of_whole,
    lemma_init_entry_prefix_free, message_content_wire, message_encodable, message_wire,
    rdispatch_wire, rmsg_payload, rmsg_status, rreq_wire, tdiscarded_wire, tdispatch_ok,
    tdispatch_wire, treq_wire, MAX_BODY, all_ok, contexts_ok, contexts_wire, ctx_entry, ctx_entry_fn, ctx_ok, ctx_ok_fn, dtab_bytes,
    dtab_ok, dtab_wire, flatten, header_entry, header_entry_fn, header_ok, header_ok_fn,
    headers_ok, headers_wire, lemma_contexts_unique, lemma_ctx_entry_prefix_free,
    lemma_flatten_next, lemma_flatten_push, lemma_header_entry_prefix_free, tag_wire,
    u16_string_ok, u16_string_wire, utf8,
};
use crate::codec::failure::{
    byte_kind, contexts_at, contexts_end, frame_error, is_utf8, message_error, rdispatch_error,
    read_error, tdispatch_error, u16_string_error, u16_string_truncated,
};
use crate::dtab::{Dentry, DentryView, Dtab};
use crate::error::{Error, ErrorKind};
use crate::message::{
    Contexts, Duration, FrameView, Headers, Init, InitView, Message, MessageFrame, MessageView,
    RdispatchView, Rdispatch, Rerr, Rmsg, RmsgView, Tag, Tdiscarded, Tdispatch, TdispatchView,
    Tlease, Treq, TreqView, MAX_TAG,
};
use crate::types;

verus! {

/// The bytes of `s` from `pos` on.
pub open spec fn remaining(s: Seq<u8>, pos: int) -> Seq<u8> {
    s.subrange(pos, s.len() as int)
}

fn eof() -> (e: Error)
    ensures
        e.kind == ErrorKind::UnexpectedEof,
{
    Error::new(ErrorKind::UnexpectedEof, "End of input")
}

fn invalid_utf8() -> (e: Error)
    ensures
        e.kind == ErrorKind::InvalidData,
{
    Error::new(ErrorKind::InvalidData, "Invalid UTF8 field")
}

/// Relies on std's `String::from_utf8`: it succeeds exactly when the bytes
/// are valid UTF-8, and the string then holds the characters they encode.
#[verifier::external_body]
fn string_from_utf8(bytes: Vec<u8>) -> (r: Option<String>)
    ensures
        r is Some <==> valid_utf8(bytes@),
        r is Some ==> r->Some_0@ == decode_utf8(bytes@),
{
    match String::from_utf8(bytes) {
        Ok(s) => Some(s),
        Err(_) => None,
    }
}

/// The string whose UTF-8 bytes are `bytes`, if they are valid UTF-8.
fn to_string(bytes: Vec<u8>) -> (r: Result<String, Error>)
    ensures
        match r {
            Ok(s) => utf8(s@) == bytes@,
            Err(e) => e.kind == ErrorKind::InvalidData && forall|c: Seq<char>| utf8(c) != bytes@,
        },
{
    let ghost b = bytes@;
    match string_from_utf8(bytes) {
        Some(s) => {
            proof {
                decode_utf8_encode_utf8(b);
            }
            Ok(s)
        },
        None => {
            proof {
                assert forall|c: Seq<char>| utf8(c) != b by {
                    encode_utf8_valid_utf8(c);
                }
            }
            Err(invalid_utf8())
        },
    }
}

/// The bytes `reader[from..to]`.
fn copy_bytes(reader: &[u8], from: usize, to: usize) -> (r: Vec<u8>)
    requires
        from <= to <= reader@.len(),
    ensures
        r@ == reader@.subrange(from as int, to as int),
{
    slice_to_vec(&reader[from..to])
}

/// Reads a tag from the three bytes at `pos`: `end` is the top bit clear,
/// the id the low 23 bits.
pub fn decode_tag(reader: &[u8], pos: usize) -> (r: Result<(Tag, usize), Error>)
    ensures
        match r {
            Ok((t, end)) => end == pos + 3 && end <= reader@.len() && t.id <= MAX_TAG
                && reader@.subrange(pos as int, end as int) == tag_wire(t),
            Err(e) => e.kind == ErrorKind::UnexpectedEof && reader@.len() < pos + 3,
        },
{
    if pos > reader.len() || reader.len() - pos < 3 {
        return Err(eof());
    }
    let (b0, b1, b2) = (reader[pos], reader[pos + 1], reader[pos + 2]);
    let id = ((b0 % 0x80) as u32) * 0x1_0000 + (b1 as u32) * 0x100 + b2 as u32;
    let t = Tag { end: b0 < 0x80, id };
    assert((id / 0x1_0000) % 0x80 == b0 % 0x80 && (id / 0x100) % 0x100 == b1 && id % 0x100 == b2)
        by (nonlinear_arith)
        requires
            id == (b0 % 0x80) * 0x1_0000 + b1 * 0x100 + b2,
            b0 < 0x100,
            b1 < 0x100,
            b2 < 0x100,
    {}
    assert(reader@.subrange(pos as int, pos + 3) =~= tag_wire(t));
    Ok((t, pos + 3))
}

fn decode_header_entry(reader: &[u8], pos: usize) -> (r: Result<((u8, Vec<u8>), usize), Error>)
    requires
        pos <= reader@.len(),
    ensures
        match r {
            Ok((e, end)) => pos <= end <= reader@.len() && header_ok(e.deep_view())
                && reader@.subrange(pos as int, end as int) == header_entry(e.deep_view()),
            Err(e) => e.kind == ErrorKind::UnexpectedEof && forall|x: (u8, Seq<u8>)|
                header_ok(x) ==> !#[trigger] header_entry(x).is_prefix_of(
                    remaining(reader@, pos as int),
                ),
        },
{
    if reader.len() - pos < 2 {
        return Err(eof());
    }
    let key = reader[pos];
    let len = reader[pos + 1] as usize;
    if reader.len() - pos - 2 < len {
        proof {
            assert forall|x: (u8, Seq<u8>)| header_ok(x) implies !#[trigger] header_entry(
                x,
            ).is_prefix_of(remaining(reader@, pos as int)) by {
                if header_entry(x).is_prefix_of(remaining(reader@, pos as int)) {
                    assert(header_entry(x)[1] == reader@[pos + 1]);
                }
            }
        }
        return Err(eof());
    }
    let val = copy_bytes(reader, pos + 2, pos + 2 + len);
    let e = (key, val);
    assert(reader@.subrange(pos as int, pos + 2 + len) =~= header_entry(e.deep_view()));
    Ok((e, pos + 2 + len))
}

/// Reads the headers of a `Treq` at `pos`: a count byte, then each header's
/// key byte, value length byte and value.
pub fn decode_headers(reader: &[u8], pos: usize) -> (r: Result<(Headers, usize), Error>)
    requires
        pos <= reader@.len(),
    ensures
        match r {
            Ok((h, end)) => pos <= end <= reader@.len() && headers_ok(h.deep_view())
                && reader@.subrange(pos as int, end as int) == headers_wire(h.deep_view()),
            Err(e) => e.kind == ErrorKind::UnexpectedEof && forall|h: Seq<(u8, Seq<u8>)>|
                headers_ok(h) ==> !#[trigger] headers_wire(h).is_prefix_of(
                    remaining(reader@, pos as int),
                ),
        },
{
    if pos >= reader.len() {
        return Err(eof());
    }
    let ghost s = remaining(reader@, pos as int);
    let n = reader[pos] as usize;
    let mut acc: Headers = Vec::new();
    let mut cur = pos + 1;
    assert(flatten(acc.deep_view(), header_entry_fn()) =~= Seq::<u8>::empty());
    assert(reader@.subrange(pos + 1, cur as int) =~= Seq::<u8>::empty());
    while acc.len() < n
        invariant
            pos < cur <= reader@.len(),
            s == remaining(reader@, pos as int),
            n == reader@[pos as int],
            acc.len() <= n,
            all_ok(acc.deep_view(), header_ok_fn()),
            reader@.subrange(pos + 1, cur as int) == flatten(acc.deep_view(), header_entry_fn()),
        decreases n - acc.len(),
    {
        match decode_header_entry(reader, cur) {
            Err(e) => {
                proof {
                    assert forall|h: Seq<(u8, Seq<u8>)>| headers_ok(h) implies !#[trigger] headers_wire(
                        h,
                    ).is_prefix_of(s) by {
                        if headers_wire(h).is_prefix_of(s) {
                            assert(headers_wire(h)[0] == s[0]);
                            let t = s.subrange(1, s.len() as int);
                            assert(flatten(h, header_entry_fn()) =~= headers_wire(h).subrange(1, headers_wire(h).len() as int));
                            assert(reader@.subrange(pos + 1, cur as int) =~= t.subrange(0, cur - pos - 1));
                            assert(flatten(acc.deep_view(), header_entry_fn()).is_prefix_of(t));
                            lemma_header_entry_prefix_free();
                            lemma_flatten_next(h, acc.deep_view(), t, header_entry_fn(), header_ok_fn());
                            assert(t.subrange(cur - pos - 1, t.len() as int) =~= remaining(reader@, cur as int));
                            assert(header_entry(h[acc.len() as int]).is_prefix_of(remaining(reader@, cur as int)));
                        }
                    }
                }
                return Err(e);
            },
            Ok((e, end)) => {
                let ghost before = acc.deep_view();
                acc.push(e);
                proof {
                    assert(acc.deep_view() =~= before.push(e.deep_view()));
                    lemma_flatten_push(before, e.deep_view(), header_entry_fn());
                    assert(reader@.subrange(pos + 1, end as int) =~= reader@.subrange(pos + 1, cur as int) + reader@.subrange(cur as int, end as int));
                    assert(header_ok_fn()(e.deep_view()));
                    assert(all_ok(acc.deep_view(), header_ok_fn())) by {
                        assert forall|j: int| 0 <= j < acc.deep_view().len() implies #[trigger] header_ok_fn()(acc.deep_view()[j]) by {
                            if j < before.len() {
                                assert(header_ok_fn()(before[j]));
                            }
                        }
                    }
                }
                cur = end;
            },
        }
    }
    assert(acc.deep_view().len() == n);
    assert(reader@.subrange(pos as int, cur as int) =~= seq![n as u8] + reader@.subrange(pos + 1, cur as int));
    Ok((acc, cur))
}

fn decode_ctx_entry(reader: &[u8], pos: usize) -> (r: Result<((Vec<u8>, Vec<u8>), usize), Error>)
    requires
        pos <= reader@.len(),
    ensures
        match r {
            Ok((e, end)) => pos <= end <= reader@.len() && ctx_ok(e.deep_view())
                && reader@.subrange(pos as int, end as int) == ctx_entry(e.deep_view()),
            Err(e) => e.kind == ErrorKind::UnexpectedEof && forall|x: (Seq<u8>, Seq<u8>)|
                ctx_ok(x) ==> !#[trigger] ctx_entry(x).is_prefix_of(remaining(reader@, pos as int)),
        },
{
    let ghost s = remaining(reader@, pos as int);
    if reader.len() - pos < 2 {
        return Err(eof());
    }
    let klen = read_be16(reader, pos) as usize;
    if reader.len() - pos - 2 < klen {
        proof {
            assert forall|x: (Seq<u8>, Seq<u8>)| ctx_ok(x) implies !#[trigger] ctx_entry(x).is_prefix_of(s) by {
                if ctx_entry(x).is_prefix_of(s) {
                    assert(be16(x.0.len() as u16) =~= reader@.subrange(pos as int, pos + 2)) by {
                        assert(be16(x.0.len() as u16) =~= ctx_entry(x).subrange(0, 2));
                    }
                    crate::bytes::lemma_be16_injective(x.0.len() as u16, klen as u16);
                }
            }
        }
        return Err(eof());
    }
    let key = copy_bytes(reader, pos + 2, pos + 2 + klen);
    let at_val = pos + 2 + klen;
    if reader.len() - at_val < 2 {
        proof {
            assert forall|x: (Seq<u8>, Seq<u8>)| ctx_ok(x) implies !#[trigger] ctx_entry(x).is_prefix_of(s) by {
                if ctx_entry(x).is_prefix_of(s) {
                    assert(be16(x.0.len() as u16) =~= reader@.subrange(pos as int, pos + 2)) by {
                        assert(be16(x.0.len() as u16) =~= ctx_entry(x).subrange(0, 2));
                    }
                    crate::bytes::lemma_be16_injective(x.0.len() as u16, klen as u16);
                }
            }
        }
        return Err(eof());
    }
    let vlen = read_be16(reader, at_val) as usize;
    if reader.len() - at_val - 2 < vlen {
        proof {
            assert forall|x: (Seq<u8>, Seq<u8>)| ctx_ok(x) implies !#[trigger] ctx_entry(x).is_prefix_of(s) by {
                if ctx_entry(x).is_prefix_of(s) {
                    assert(be16(x.0.len() as u16) =~= reader@.subrange(pos as int, pos + 2)) by {
                        assert(be16(x.0.len() as u16) =~= ctx_entry(x).subrange(0, 2));
                    }
                    crate::bytes::lemma_be16_injective(x.0.len() as u16, klen as u16);
                    assert(be16(x.1.len() as u16) =~= reader@.subrange(at_val as int, at_val + 2)) by {
                        assert(be16(x.1.len() as u16) =~= ctx_entry(x).subrange(2 + klen, 4 + klen));
                    }
                    crate::bytes::lemma_be16_injective(x.1.len() as u16, vlen as u16);
                }
            }
        }
        return Err(eof());
    }
    let val = copy_bytes(reader, at_val + 2, at_val + 2 + vlen);
    let e = (key, val);
    assert(reader@.subrange(pos as int, at_val + 2 + vlen) =~= ctx_entry(e.deep_view()));
    Ok((e, at_val + 2 + vlen))
}

/// Reads contexts at `pos`: a count in two bytes, then each key and value
/// after its length in two bytes.
pub fn decode_contexts(reader: &[u8], pos: usize) -> (r: Result<(Contexts, usize), Error>)
    requires
        pos <= reader@.len(),
    ensures
        match r {
            Ok((c, end)) => pos <= end <= reader@.len() && contexts_ok(c.deep_view())
                && reader@.subrange(pos as int, end as int) == contexts_wire(c.deep_view()),
            Err(e) => e.kind == ErrorKind::UnexpectedEof && forall|c: Seq<(Seq<u8>, Seq<u8>)>|
                contexts_ok(c) ==> !#[trigger] contexts_wire(c).is_prefix_of(
                    remaining(reader@, pos as int),
                ),
        },
{
    if reader.len() - pos < 2 {
        return Err(eof());
    }
    let ghost s = remaining(reader@, pos as int);
    let n = read_be16(reader, pos) as usize;
    let mut acc: Contexts = Vec::new();
    let mut cur = pos + 2;
    assert(flatten(acc.deep_view(), ctx_entry_fn()) =~= Seq::<u8>::empty());
    assert(reader@.subrange(pos + 2, cur as int) =~= Seq::<u8>::empty());
    while acc.len() < n
        invariant
            pos + 2 <= cur <= reader@.len(),
            s == remaining(reader@, pos as int),
            n <= 0xffff,
            be16(n as u16) == reader@.subrange(pos as int, pos + 2),
            acc.len() <= n,
            all_ok(acc.deep_view(), ctx_ok_fn()),
            reader@.subrange(pos + 2, cur as int) == flatten(acc.deep_view(), ctx_entry_fn()),
        decreases n - acc.len(),
    {
        match decode_ctx_entry(reader, cur) {
            Err(e) => {
                proof {
                    assert forall|c: Seq<(Seq<u8>, Seq<u8>)>| contexts_ok(c) implies !#[trigger] contexts_wire(
                        c,
                    ).is_prefix_of(s) by {
                        if contexts_wire(c).is_prefix_of(s) {
                            assert(be16(c.len() as u16) =~= s.subrange(0, 2)) by {
                                assert(be16(c.len() as u16) =~= contexts_wire(c).subrange(0, 2));
                            }
                            assert(s.subrange(0, 2) =~= reader@.subrange(pos as int, pos + 2));
                            crate::bytes::lemma_be16_injective(c.len() as u16, n as u16);
                            let t = s.subrange(2, s.len() as int);
                            assert(flatten(c, ctx_entry_fn()) =~= contexts_wire(c).subrange(2, contexts_wire(c).len() as int));
                            assert(reader@.subrange(pos + 2, cur as int) =~= t.subrange(0, cur - pos - 2));
                            assert(flatten(acc.deep_view(), ctx_entry_fn()).is_prefix_of(t));
                            lemma_ctx_entry_prefix_free();
                            lemma_flatten_next(c, acc.deep_view(), t, ctx_entry_fn(), ctx_ok_fn());
                            assert(t.subrange(cur - pos - 2, t.len() as int) =~= remaining(reader@, cur as int));
                            assert(ctx_entry(c[acc.len() as int]).is_prefix_of(remaining(reader@, cur as int)));
                        }
                    }
                }
                return Err(e);
            },
            Ok((e, end)) => {
                let ghost before = acc.deep_view();
                acc.push(e);
                proof {
                    assert(acc.deep_view() =~= before.push(e.deep_view()));
                    lemma_flatten_push(before, e.deep_view(), ctx_entry_fn());
                    assert(reader@.subrange(pos + 2, end as int) =~= reader@.subrange(pos + 2, cur as int) + reader@.subrange(cur as int, end as int));
                    assert(ctx_ok_fn()(e.deep_view()));
                    assert(all_ok(acc.deep_view(), ctx_ok_fn())) by {
                        assert forall|j: int| 0 <= j < acc.deep_view().len() implies #[trigger] ctx_ok_fn()(acc.deep_view()[j]) by {
                            if j < before.len() {
                                assert(ctx_ok_fn()(before[j]));
                            }
                        }
                    }
                }
                cur = end;
            },
        }
    }
    assert(acc.deep_view().len() == n);
    assert(reader@.subrange(pos as int, cur as int) =~= reader@.subrange(pos as int, pos + 2) + reader@.subrange(pos + 2, cur as int));
    Ok((acc, cur))
}

/// Reads a string at `pos`: the length of its UTF-8 bytes in two bytes,
/// then the bytes.
pub fn decode_u16_string(reader: &[u8], pos: usize) -> (r: Result<(String, usize), Error>)
    requires
        pos <= reader@.len(),
    ensures
        match r {
            Ok((s, end)) => pos <= end <= reader@.len() && u16_string_ok(s@)
                && reader@.subrange(pos as int, end as int) == u16_string_wire(s@)
                && end == pos + 2 + be16_value(reader@, pos as int)
                && utf8(s@) == reader@.subrange(pos + 2, end as int),
            Err(e) => e.kind == u16_string_error(reader@, pos as int)
                && (!u16_string_truncated(reader@, pos as int) ==> !is_utf8(
                    reader@.subrange(pos + 2, pos + 2 + be16_value(reader@, pos as int)),
                ))
                && forall|c: Seq<char>| u16_string_ok(c) ==> !#[trigger] u16_string_wire(c).is_prefix_of(
                    remaining(reader@, pos as int),
                ),
        },
{
    let ghost s = remaining(reader@, pos as int);
    if reader.len() - pos < 2 {
        return Err(eof());
    }
    let n = read_be16(reader, pos) as usize;
    proof {
        lemma_be16_value(n as u16, reader@, pos as int);
        assert forall|c: Seq<char>| #[trigger] u16_string_wire(c).is_prefix_of(s) && u16_string_ok(c) implies utf8(c).len() == n
            && utf8(c) == reader@.subrange(pos + 2, pos + 2 + n) by {
            assert(be16(utf8(c).len() as u16) =~= reader@.subrange(pos as int, pos + 2)) by {
                assert(be16(utf8(c).len() as u16) =~= u16_string_wire(c).subrange(0, 2));
            }
            crate::bytes::lemma_be16_injective(utf8(c).len() as u16, n as u16);
            assert(utf8(c) =~= u16_string_wire(c).subrange(2, 2 + n));
        }
    }
    if reader.len() - pos - 2 < n {
        return Err(eof());
    }
    let bytes = copy_bytes(reader, pos + 2, pos + 2 + n);
    match to_string(bytes) {
        Ok(st) => {
            assert(reader@.subrange(pos as int, pos + 2 + n) =~= u16_string_wire(st@));
            Ok((st, pos + 2 + n))
        },
        Err(e) => {
            proof {
                assert(!is_utf8(reader@.subrange(pos + 2, pos + 2 + n)));
            }
            Err(e)
        },
    }
}

/// Reads a delegation table at `pos`: laid out as contexts whose keys and
/// values are UTF-8 strings.
pub fn decode_dtab(reader: &[u8], pos: usize) -> (r: Result<(Dtab, usize), Error>)
    requires
        pos <= reader@.len(),
    ensures
        match r {
            Ok((d, end)) => pos <= end <= reader@.len() && dtab_ok(d@)
                && reader@.subrange(pos as int, end as int) == dtab_wire(d@),
            Err(e) => e.kind == crate::codec::failure::dtab_error(reader@, pos as int)
                && forall|d: Seq<DentryView>| dtab_ok(d) ==> !#[trigger] dtab_wire(d).is_prefix_of(
                    remaining(reader@, pos as int),
                ),
        },
{
    let ghost s = remaining(reader@, pos as int);
    let (ctxs, end) = match decode_contexts(reader, pos) {
        Err(e) => {
            proof {
                assert forall|d: Seq<DentryView>| dtab_ok(d) implies !#[trigger] dtab_wire(d).is_prefix_of(s) by {
                    assert(!contexts_wire(dtab_bytes(d)).is_prefix_of(s));
                }
            }
            return Err(e);
        },
        Ok(r) => r,
    };
    let ghost c = ctxs.deep_view();
    proof {
        assert(contexts_wire(c).is_prefix_of(s)) by {
            assert(reader@.subrange(pos as int, end as int) =~= s.subrange(0, end - pos));
        }
        assert(contexts_at(reader@, pos as int));
        assert forall|d: Seq<DentryView>| dtab_ok(d) && #[trigger] dtab_wire(d).is_prefix_of(s) implies dtab_bytes(d) == c by {
            assert(contexts_wire(c).is_prefix_of(s)) by {
                assert(reader@.subrange(pos as int, end as int) =~= s.subrange(0, end - pos));
            }
            lemma_contexts_unique(dtab_bytes(d), c, s);
        }
    }
    let mut entries: Vec<Dentry> = Vec::new();
    let mut i: usize = 0;
    while i < ctxs.len()
        invariant
            i <= ctxs.len(),
            c == ctxs.deep_view(),
            entries.len() == i,
            forall|j: int| 0 <= j < i ==> (utf8(#[trigger] entries@[j].key@), utf8(entries@[j].val@)) == c[j],
            s == remaining(reader@, pos as int),
            contexts_at(reader@, pos as int),
            forall|d: Seq<DentryView>| dtab_ok(d) && #[trigger] dtab_wire(d).is_prefix_of(s) ==> dtab_bytes(d) == c,
        decreases ctxs.len() - i,
    {
        let key = to_string(copy_bytes(ctxs[i].0.as_slice(), 0, ctxs[i].0.len()));
        let val = to_string(copy_bytes(ctxs[i].1.as_slice(), 0, ctxs[i].1.len()));
        assert(ctxs[i as int].0@.subrange(0, ctxs[i as int].0@.len() as int) =~= c[i as int].0);
        assert(ctxs[i as int].1@.subrange(0, ctxs[i as int].1@.len() as int) =~= c[i as int].1);
        let k = match key {
            Ok(k) => k,
            Err(e) => {
                proof {
                    assert forall|d: Seq<DentryView>| dtab_ok(d) implies !#[trigger] dtab_wire(d).is_prefix_of(s) by {
                        if dtab_wire(d).is_prefix_of(s) {
                            assert(dtab_bytes(d)[i as int] == c[i as int]);
                            assert(utf8(d[i as int].key) == c[i as int].0);
                        }
                    }
                }
                return Err(e);
            },
        };
        let v = match val {
            Ok(v) => v,
            Err(e) => {
                proof {
                    assert forall|d: Seq<DentryView>| dtab_ok(d) implies !#[trigger] dtab_wire(d).is_prefix_of(s) by {
                        if dtab_wire(d).is_prefix_of(s) {
                            assert(dtab_bytes(d)[i as int] == c[i as int]);
                            assert(utf8(d[i as int].val) == c[i as int].1);
                        }
                    }
                }
                return Err(e);
            },
        };
        entries.push(Dentry::new(k, v));
        i += 1;
    }
    let table = Dtab::from_entries(entries);
    assert(dtab_bytes(table@) =~= c);
    Ok((table, end))
}

/// Reads all of `reader` as a UTF-8 string.
pub fn decode_rerr(reader: &[u8]) -> (r: Result<String, Error>)
    ensures
        match r {
            Ok(s) => utf8(s@) == reader@,
            Err(e) => e.kind == ErrorKind::InvalidData && forall|c: Seq<char>| utf8(c) != reader@,
        },
{
    to_string(slice_to_vec(reader))
}

proof fn lemma_init_entry_fields(x: (Seq<u8>, Seq<u8>), s: Seq<u8>)
    requires
        init_entry(x).is_prefix_of(s),
    ensures
        be32(x.0.len() as u32) == s.subrange(0, 4),
        be32(x.1.len() as u32) == s.subrange(4 + x.0.len() as int, 8 + x.0.len() as int),
{
    let e = init_entry(x);
    assert(be32(x.0.len() as u32) =~= e.subrange(0, 4));
    assert(be32(x.1.len() as u32) =~= e.subrange(4 + x.0.len() as int, 8 + x.0.len() as int));
    assert(e.subrange(0, 4) =~= s.subrange(0, 4));
    assert(e.subrange(4 + x.0.len() as int, 8 + x.0.len() as int) =~= s.subrange(4 + x.0.len() as int, 8 + x.0.len() as int));
}

#[verifier::rlimit(40)]
fn decode_init_entry(reader: &[u8], pos: usize) -> (r: Result<((Vec<u8>, Vec<u8>), usize), Error>)
    requires
        pos <= reader@.len(),
    ensures
        match r {
            Ok((e, end)) => pos < end <= reader@.len() && init_entry_ok(e.deep_view())
                && reader@.subrange(pos as int, end as int) == init_entry(e.deep_view()),
            Err(e) => e.kind == ErrorKind::UnexpectedEof && forall|x: (Seq<u8>, Seq<u8>)|
                init_entry_ok(x) ==> !#[trigger] init_entry(x).is_prefix_of(
                    remaining(reader@, pos as int),
                ),
        },
{
    let ghost s = remaining(reader@, pos as int);
    if reader.len() - pos < 4 {
        return Err(eof());
    }
    let klen = read_be32(reader, pos) as usize;
    if reader.len() - pos - 4 < klen {
        proof {
            assert forall|x: (Seq<u8>, Seq<u8>)| init_entry_ok(x) implies !#[trigger] init_entry(x).is_prefix_of(s) by {
                if init_entry(x).is_prefix_of(s) {
                    lemma_init_entry_fields(x, s);
                    assert(s.subrange(0, 4) =~= reader@.subrange(pos as int, pos + 4));
                    crate::bytes::lemma_be32_injective(x.0.len() as u32, klen as u32);
                }
            }
        }
        return Err(eof());
    }
    let key = copy_bytes(reader, pos + 4, pos + 4 + klen);
    let at_val = pos + 4 + klen;
    if reader.len() - at_val < 4 {
        proof {
            assert forall|x: (Seq<u8>, Seq<u8>)| init_entry_ok(x) implies !#[trigger] init_entry(x).is_prefix_of(s) by {
                if init_entry(x).is_prefix_of(s) {
                    lemma_init_entry_fields(x, s);
                    assert(s.subrange(0, 4) =~= reader@.subrange(pos as int, pos + 4));
                    crate::bytes::lemma_be32_injective(x.0.len() as u32, klen as u32);
                }
            }
        }
        return Err(eof());
    }
    let vlen = read_be32(reader, at_val) as usize;
    if reader.len() - at_val - 4 < vlen {
        proof {
            assert forall|x: (Seq<u8>, Seq<u8>)| init_entry_ok(x) implies !#[trigger] init_entry(x).is_prefix_of(s) by {
                if init_entry(x).is_prefix_of(s) {
                    lemma_init_entry_fields(x, s);
                    assert(s.subrange(0, 4) =~= reader@.subrange(pos as int, pos + 4));
                    crate::bytes::lemma_be32_injective(x.0.len() as u32, klen as u32);
                    assert(s.subrange(4 + klen, 8 + klen) =~= reader@.subrange(at_val as int, at_val + 4));
                    crate::bytes::lemma_be32_injective(x.1.len() as u32, vlen as u32);
                }
            }
        }
        return Err(eof());
    }
    let val = copy_bytes(reader, at_val + 4, at_val + 4 + vlen);
    let e = (key, val);
    assert(reader@.subrange(pos as int, at_val + 4 + vlen) =~= init_entry(e.deep_view()));
    Ok((e, at_val + 4 + vlen))
}

/// Reads a `Tinit` or `Rinit` body: the version in two bytes, then headers,
/// each key and value after its length in four bytes, up to the end of the
/// input. The input ending exactly where a header would start ends the list.
pub fn decode_init(reader: &[u8]) -> (r: Result<Init, Error>)
    ensures
        match r {
            Ok(i) => init_ok(i@) && init_wire(i@) == reader@,
            Err(e) => e.kind == ErrorKind::UnexpectedEof && forall|i: InitView|
                init_ok(i) ==> #[trigger] init_wire(i) != reader@,
        },
{
    if reader.len() < 2 {
        return Err(eof());
    }
    let version = read_be16(reader, 0);
    let mut acc: Contexts = Vec::new();
    let mut cur: usize = 2;
    assert(reader@.subrange(2, 2) =~= flatten(acc.deep_view(), init_entry_fn()));
    while cur < reader.len()
        invariant
            2 <= cur <= reader@.len(),
            be16(version) == reader@.subrange(0, 2),
            all_ok(acc.deep_view(), init_entry_ok_fn()),
            reader@.subrange(2, cur as int) == flatten(acc.deep_view(), init_entry_fn()),
        decreases reader.len() - cur,
    {
        match decode_init_entry(reader, cur) {
            Err(e) => {
                proof {
                    assert forall|i: InitView| init_ok(i) implies #[trigger] init_wire(i) != reader@ by {
                        if init_wire(i) == reader@ {
                            let t = reader@.subrange(2, reader@.len() as int);
                            assert(flatten(i.headers, init_entry_fn()) =~= t);
                            assert(flatten(acc.deep_view(), init_entry_fn()).is_prefix_of(t)) by {
                                assert(reader@.subrange(2, cur as int) =~= t.subrange(0, cur - 2));
                            }
                            lemma_init_entry_prefix_free();
                            lemma_flatten_prefix_of_whole(acc.deep_view(), i.headers, t, init_entry_fn(), init_entry_ok_fn());
                            if acc.deep_view().len() == i.headers.len() {
                                assert(i.headers.take(i.headers.len() as int) =~= i.headers);
                            } else {
                                assert(flatten(i.headers, init_entry_fn()).is_prefix_of(t));
                                lemma_flatten_next(i.headers, acc.deep_view(), t, init_entry_fn(), init_entry_ok_fn());
                                assert(t.subrange(cur - 2, t.len() as int) =~= remaining(reader@, cur as int));
                                assert(init_entry(i.headers[acc.len() as int]).is_prefix_of(remaining(reader@, cur as int)));
                            }
                        }
                    }
                }
                return Err(e);
            },
            Ok((e, end)) => {
                let ghost before = acc.deep_view();
                acc.push(e);
                proof {
                    assert(acc.deep_view() =~= before.push(e.deep_view()));
                    lemma_flatten_push(before, e.deep_view(), init_entry_fn());
                    assert(reader@.subrange(2, end as int) =~= reader@.subrange(2, cur as int) + reader@.subrange(cur as int, end as int));
                    assert(init_entry_ok_fn()(e.deep_view()));
                    assert(all_ok(acc.deep_view(), init_entry_ok_fn())) by {
                        assert forall|j: int| 0 <= j < acc.deep_view().len() implies #[trigger] init_entry_ok_fn()(acc.deep_view()[j]) by {
                            if j < before.len() {
                                assert(init_entry_ok_fn()(before[j]));
                            }
                        }
                    }
                }
                cur = end;
            },
        }
    }
    let init = Init { version, headers: acc };
    assert(reader@ =~= reader@.subrange(0, 2) + reader@.subrange(2, cur as int));
    Ok(init)
}

/// The reply with the given status byte and payload; any status other than
/// 0, 1 and 2 is invalid.
fn decode_rmsg_body(status: u8, body: Vec<u8>) -> (r: Result<Rmsg, Error>)
    ensures
        match r {
            Ok(m) => rmsg_status(m@) == status && rmsg_payload(m@) == body@,
            Err(e) => e.kind == ErrorKind::InvalidData && forall|m: RmsgView|
                !(rmsg_status(m) == status && #[trigger] rmsg_payload(m) == body@),
        },
{
    let ghost b = body@;
    if status == 0 {
        Ok(Rmsg::Success(body))
    } else if status == 1 {
        match to_string(body) {
            Ok(s) => Ok(Rmsg::Error(s)),
            Err(e) => Err(e),
        }
    } else if status == 2 {
        match to_string(body) {
            Ok(s) => Ok(Rmsg::Nack(s)),
            Err(e) => Err(e),
        }
    } else {
        Err(Error::new(ErrorKind::InvalidData, "Invalid status code"))
    }
}

/// Reads an `Rreq` body: the status byte, then the payload.
pub fn decode_rreq(reader: &[u8]) -> (r: Result<Rmsg, Error>)
    ensures
        match r {
            Ok(m) => rreq_wire(m@) == reader@,
            Err(e) => (e.kind == if reader@.len() == 0 {
                ErrorKind::UnexpectedEof
            } else {
                ErrorKind::InvalidData
            }) && forall|m: RmsgView| #[trigger] rreq_wire(m) != reader@,
        },
{
    if reader.len() < 1 {
        return Err(eof());
    }
    let body = copy_bytes(reader, 1, reader.len());
    let r = decode_rmsg_body(reader[0], body);
    proof {
        assert forall|m: RmsgView| rreq_wire(m) == reader@ implies rmsg_status(m) == reader@[0]
            && rmsg_payload(m) == reader@.subrange(1, reader@.len() as int) by {
            assert(rmsg_payload(m) =~= rreq_wire(m).subrange(1, rreq_wire(m).len() as int));
        }
        if r is Ok {
            assert(rreq_wire(r->Ok_0@) =~= reader@);
        }
    }
    r
}

/// Reads a `Treq` body: the headers, then the body.
pub fn decode_treq(reader: &[u8]) -> (r: Result<Treq, Error>)
    ensures
        match r {
            Ok(t) => headers_ok(t@.headers) && treq_wire(t@) == reader@,
            Err(e) => e.kind == ErrorKind::UnexpectedEof && forall|t: TreqView|
                headers_ok(t.headers) ==> #[trigger] treq_wire(t) != reader@,
        },
{
    let (headers, end) = match decode_headers(reader, 0) {
        Ok(r) => r,
        Err(e) => {
            proof {
                assert forall|t: TreqView| headers_ok(t.headers) implies #[trigger] treq_wire(t) != reader@ by {
                    assert(remaining(reader@, 0) =~= reader@);
                    if treq_wire(t) == reader@ {
                        assert(headers_wire(t.headers).is_prefix_of(reader@));
                    }
                }
            }
            return Err(e);
        },
    };
    let body = copy_bytes(reader, end, reader.len());
    let t = Treq { headers, body };
    assert(treq_wire(t@) =~= reader@);
    Ok(t)
}

/// Reads an `Rdispatch` body: the status byte, the contexts, then the payload.
pub fn decode_rdispatch(reader: &[u8]) -> (r: Result<Rdispatch, Error>)
    ensures
        match r {
            Ok(d) => contexts_ok(d@.contexts) && rdispatch_wire(d@) == reader@,
            Err(e) => e.kind == rdispatch_error(reader@) && forall|d: RdispatchView| contexts_ok(d.contexts) ==> #[trigger] rdispatch_wire(d) != reader@,
        },
{
    if reader.len() < 1 {
        return Err(eof());
    }
    let status = reader[0];
    let (contexts, end) = match decode_contexts(reader, 1) {
        Ok(r) => r,
        Err(e) => {
            proof {
                assert forall|d: RdispatchView| contexts_ok(d.contexts) implies #[trigger] rdispatch_wire(d) != reader@ by {
                    if rdispatch_wire(d) == reader@ {
                        assert(contexts_wire(d.contexts).is_prefix_of(remaining(reader@, 1))) by {
                            assert(contexts_wire(d.contexts) =~= rdispatch_wire(d).subrange(1, 1 + contexts_wire(d.contexts).len() as int));
                        }
                    }
                }
            }
            return Err(e);
        },
    };
    let body = copy_bytes(reader, end, reader.len());
    let ghost c = contexts.deep_view();
    proof {
        assert(contexts_wire(c).is_prefix_of(remaining(reader@, 1))) by {
            assert(reader@.subrange(1, end as int) =~= remaining(reader@, 1).subrange(0, end - 1));
        }
        assert(contexts_at(reader@, 1));
        assert forall|d: RdispatchView| contexts_ok(d.contexts) && #[trigger] rdispatch_wire(d) == reader@ implies
            d.contexts == c && rmsg_status(d.msg) == status && rmsg_payload(d.msg) == reader@.subrange(end as int, reader@.len() as int) by {
            let s = remaining(reader@, 1);
            assert(contexts_wire(d.contexts).is_prefix_of(s)) by {
                assert(contexts_wire(d.contexts) =~= rdispatch_wire(d).subrange(1, 1 + contexts_wire(d.contexts).len() as int));
            }
            assert(contexts_wire(c).is_prefix_of(s)) by {
                assert(reader@.subrange(1, end as int) =~= s.subrange(0, end - 1));
            }
            lemma_contexts_unique(d.contexts, c, s);
            assert(rmsg_payload(d.msg) =~= rdispatch_wire(d).subrange(end as int, rdispatch_wire(d).len() as int));
        }
    }
    match decode_rmsg_body(status, body) {
        Ok(msg) => {
            let d = Rdispatch { contexts, msg };
            assert(rdispatch_wire(d@) =~= reader@);
            Ok(d)
        },
        Err(e) => Err(e),
    }
}

/// Reads a `Tdispatch` body: contexts, destination, delegation table, then
/// the body.
#[verifier::rlimit(80)]
pub fn decode_tdispatch(reader: &[u8]) -> (r: Result<Tdispatch, Error>)
    ensures
        match r {
            Ok(t) => tdispatch_ok(t@) && tdispatch_wire(t@) == reader@,
            Err(e) => e.kind == tdispatch_error(reader@) && forall|t: TdispatchView| tdispatch_ok(t) ==> #[trigger] tdispatch_wire(t) != reader@,
        },
{
    let (contexts, at_dest) = match decode_contexts(reader, 0) {
        Ok(r) => r,
        Err(e) => {
            proof {
                assert(remaining(reader@, 0) =~= reader@);
                assert(!contexts_at(reader@, 0));
                assert forall|t: TdispatchView| tdispatch_ok(t) implies #[trigger] tdispatch_wire(t) != reader@ by {
                    if tdispatch_wire(t) == reader@ {
                        let w = tdispatch_wire(t);
                        assert(w =~= contexts_wire(t.contexts) + (u16_string_wire(t.dest) + dtab_wire(t.dtab) + t.body));
                        assert(contexts_wire(t.contexts) =~= reader@.subrange(0, contexts_wire(t.contexts).len() as int));
                        assert(contexts_wire(t.contexts).is_prefix_of(remaining(reader@, 0)));
                    }
                }
            }
            return Err(e);
        },
    };
    let ghost c = contexts.deep_view();
    proof {
        assert(remaining(reader@, 0) =~= reader@);
        assert(contexts_wire(c).is_prefix_of(reader@)) by {
            assert(reader@.subrange(0, at_dest as int) =~= reader@.subrange(0, at_dest as int));
        }
        crate::codec::failure::lemma_contexts_end(reader@, 0, c);
        assert(contexts_end(reader@, 0) == at_dest);
        assert forall|t: TdispatchView| tdispatch_ok(t) && #[trigger] tdispatch_wire(t) == reader@ implies t.contexts == c
            && u16_string_wire(t.dest).is_prefix_of(remaining(reader@, at_dest as int)) by {
            assert(remaining(reader@, 0) =~= reader@);
            assert(contexts_wire(t.contexts) =~= reader@.subrange(0, contexts_wire(t.contexts).len() as int));
            lemma_contexts_unique(t.contexts, c, reader@);
            assert(u16_string_wire(t.dest) =~= reader@.subrange(at_dest as int, at_dest + u16_string_wire(t.dest).len()));
        }
    }
    let (dest, at_dtab) = match decode_u16_string(reader, at_dest) {
        Ok(r) => r,
        Err(e) => {
            assert(e.kind == tdispatch_error(reader@));
            return Err(e);
        },
    };
    proof {
        assert(!u16_string_truncated(reader@, at_dest as int));
        assert(is_utf8(reader@.subrange(at_dest + 2, at_dtab as int))) by {
            assert(utf8(dest@) == reader@.subrange(at_dest + 2, at_dtab as int));
        }
    }
    proof {
        assert forall|t: TdispatchView| tdispatch_ok(t) && #[trigger] tdispatch_wire(t) == reader@ implies t.dest == dest@
            && dtab_wire(t.dtab).is_prefix_of(remaining(reader@, at_dtab as int)) by {
            let s = remaining(reader@, at_dest as int);
            assert(u16_string_wire(dest@) =~= s.subrange(0, at_dtab - at_dest));
            crate::codec::format::lemma_u16_string_unique(t.dest, dest@, s);
            assert(dtab_wire(t.dtab) =~= reader@.subrange(at_dtab as int, at_dtab + dtab_wire(t.dtab).len()));
        }
    }
    let (dtab, at_body) = match decode_dtab(reader, at_dtab) {
        Ok(r) => r,
        Err(e) => {
            assert(e.kind == tdispatch_error(reader@));
            return Err(e);
        },
    };
    proof {
        assert forall|t: TdispatchView| tdispatch_ok(t) && #[trigger] tdispatch_wire(t) == reader@ implies t.dtab == dtab@ by {
            let s = remaining(reader@, at_dtab as int);
            assert(dtab_wire(dtab@) =~= s.subrange(0, at_body - at_dtab));
            crate::codec::format::lemma_dtab_unique(t.dtab, dtab@, s);
        }
    }
    let body = copy_bytes(reader, at_body, reader.len());
    let t = Tdispatch { contexts, dest, dtab, body };
    assert(tdispatch_wire(t@) =~= reader@);
    Ok(t)
}

/// Reads a `Tdiscarded` body: the id in three bytes, then the reason.
pub fn decode_tdiscarded(reader: &[u8]) -> (r: Result<Tdiscarded, Error>)
    ensures
        match r {
            Ok(d) => d.id <= 0xff_ffff && tdiscarded_wire(d.id, d.msg@) == reader@,
            Err(e) => (e.kind == if reader@.len() < 3 {
                ErrorKind::UnexpectedEof
            } else {
                ErrorKind::InvalidData
            }) && forall|id: u32, msg: Seq<char>| id <= 0xff_ffff ==> #[trigger] tdiscarded_wire(id, msg) != reader@,
        },
{
    if reader.len() < 3 {
        return Err(eof());
    }
    let id = (reader[0] as u32) * 0x1_0000 + (reader[1] as u32) * 0x100 + reader[2] as u32;
    let (b0, b1, b2) = (reader[0], reader[1], reader[2]);
    assert((id / 0x1_0000) % 0x100 == b0 && (id / 0x100) % 0x100 == b1 && id % 0x100 == b2)
        by (nonlinear_arith)
        requires
            id == b0 * 0x1_0000 + b1 * 0x100 + b2,
            b0 < 0x100,
            b1 < 0x100,
            b2 < 0x100,
    {}
    let rest = copy_bytes(reader, 3, reader.len());
    match to_string(rest) {
        Ok(msg) => {
            let d = Tdiscarded { id, msg };
            assert(tdiscarded_wire(d.id, d.msg@) =~= reader@);
            Ok(d)
        },
        Err(e) => {
            proof {
                assert forall|i: u32, m: Seq<char>| i <= 0xff_ffff implies #[trigger] tdiscarded_wire(i, m) != reader@ by {
                    if tdiscarded_wire(i, m) == reader@ {
                        assert(utf8(m) =~= reader@.subrange(3, reader@.len() as int));
                    }
                }
            }
            Err(e)
        },
    }
}

/// Reads a `Tlease` body: the unit byte, which must be 0 (milliseconds),
/// then the milliseconds in eight bytes, and nothing after them.
pub fn decode_tlease_duration(reader: &[u8]) -> (r: Result<Duration, Error>)
    ensures
        match r {
            Ok(d) => d.nanos < 1_000_000_000 && d.nanos % 1_000_000 == 0 && d.millis() <= u64::MAX
                && lease_wire(d) == reader@,
            Err(e) => (e.kind == if reader@.len() < 9 {
                ErrorKind::UnexpectedEof
            } else {
                ErrorKind::InvalidData
            }) && forall|d: Duration| d.millis() <= u64::MAX ==> #[trigger] lease_wire(d) != reader@,
        },
{
    if reader.len() < 9 {
        return Err(eof());
    }
    if reader[0] != 0 {
        return Err(Error::new(ErrorKind::InvalidData, "Unknown Tlease 'howmuch' code"));
    }
    if reader.len() > 9 {
        return Err(Error::new(ErrorKind::InvalidData, "Trailing bytes after Tlease"));
    }
    let ticks = read_be64(reader, 1);
    let d = Duration::from_millis(ticks);
    assert(lease_wire(d) =~= reader@);
    Ok(d)
}

/// Reads an `Rerr` body as a frame.
fn decode_rerr_frame(reader: &[u8]) -> (r: Result<Rerr, Error>)
    ensures
        match r {
            Ok(e) => utf8(e.msg@) == reader@,
            Err(e) => e.kind == ErrorKind::InvalidData && forall|c: Seq<char>| #[trigger] utf8(c) != reader@,
        },
{
    match decode_rerr(reader) {
        Ok(msg) => Ok(Rerr { msg }),
        Err(e) => Err(e),
    }
}

/// A frame whose body must be empty.
fn empty_frame(reader: &[u8], frame: MessageFrame) -> (r: Result<MessageFrame, Error>)
    ensures
        match r {
            Ok(f) => f == frame && reader@.len() == 0,
            Err(e) => e.kind == ErrorKind::InvalidData && reader@.len() > 0,
        },
{
    if reader.len() == 0 {
        Ok(frame)
    } else {
        Err(Error::new(ErrorKind::InvalidData, "Trailing bytes after empty frame"))
    }
}

/// Decodes the body of a frame of kind `tpe`, consuming all of `reader`.
///
/// Succeeds exactly when `reader` is the body of an encodable frame of that
/// kind, and then returns it. An unknown kind is an `InvalidInput` error.
pub fn decode_frame(tpe: i8, reader: &[u8]) -> (r: Result<MessageFrame, Error>)
    ensures
        match r {
            Ok(f) => f@.kind() == tpe && frame_canonical(f@) && frame_body_wire(f@) == reader@,
            Err(e) => (forall|f: FrameView| f.kind() == tpe && frame_encodable(f) ==> #[trigger] frame_body_wire(f) != reader@)
                && e.kind == frame_error(tpe, reader@)
                && (e.kind == ErrorKind::InvalidInput <==> !types::is_frame_code(tpe)),
        },
{
    let r = if tpe == types::TREQ {
        match decode_treq(reader) {
            Ok(f) => Ok(MessageFrame::Treq(f)),
            Err(e) => Err(e),
        }
    } else if tpe == types::RREQ {
        match decode_rreq(reader) {
            Ok(f) => Ok(MessageFrame::Rreq(f)),
            Err(e) => Err(e),
        }
    } else if tpe == types::TDISPATCH {
        match decode_tdispatch(reader) {
            Ok(f) => Ok(MessageFrame::Tdispatch(f)),
            Err(e) => Err(e),
        }
    } else if tpe == types::RDISPATCH {
        match decode_rdispatch(reader) {
            Ok(f) => Ok(MessageFrame::Rdispatch(f)),
            Err(e) => Err(e),
        }
    } else if tpe == types::TINIT {
        match decode_init(reader) {
            Ok(f) => Ok(MessageFrame::Tinit(f)),
            Err(e) => Err(e),
        }
    } else if tpe == types::RINIT {
        match decode_init(reader) {
            Ok(f) => Ok(MessageFrame::Rinit(f)),
            Err(e) => Err(e),
        }
    } else if tpe == types::TDRAIN {
        empty_frame(reader, MessageFrame::Tdrain)
    } else if tpe == types::RDRAIN {
        empty_frame(reader, MessageFrame::Rdrain)
    } else if tpe == types::TPING {
        empty_frame(reader, MessageFrame::Tping)
    } else if tpe == types::RPING {
        empty_frame(reader, MessageFrame::Rping)
    } else if tpe == types::TDISCARDED {
        match decode_tdiscarded(reader) {
            Ok(f) => Ok(MessageFrame::Tdiscarded(f)),
            Err(e) => Err(e),
        }
    } else if tpe == types::TLEASE {
        match decode_tlease_duration(reader) {
            Ok(d) => Ok(MessageFrame::Tlease(Tlease { duration: d })),
            Err(e) => Err(e),
        }
    } else if tpe == types::RERR {
        match decode_rerr_frame(reader) {
            Ok(f) => Ok(MessageFrame::Rerr(f)),
            Err(e) => Err(e),
        }
    } else {
        Err(Error::new(ErrorKind::InvalidInput, "Invalid frame type"))
    };
    proof {
        if r is Err {
            assert forall|f: FrameView| f.kind() == tpe && frame_encodable(f) implies #[trigger] frame_body_wire(f) != reader@ by {
                match f {
                    FrameView::Tdiscarded { id, msg } => {
                        assert(tdiscarded_wire(id, msg) != reader@);
                    },
                    FrameView::Rerr(m) => {
                        assert(utf8(m) != reader@);
                    },
                    _ => {},
                }
            }
        }
    }
    r
}

/// The frame kind code carried by a byte.
fn byte_to_kind(b: u8) -> (r: i8)
    ensures
        kind_byte(r) == b,
        r == byte_kind(b),
{
    if b >= 0x80 {
        (b as i16 - 256) as i8
    } else {
        b as i8
    }
}

/// Decodes a message without its length prefix: the kind byte, the tag and
/// the body, consuming all of `reader`.
pub fn decode_message(reader: &[u8]) -> (r: Result<Message, Error>)
    ensures
        match r {
            Ok(m) => m.tag.id <= MAX_TAG && frame_canonical(m@.frame) && message_content_wire(m@) == reader@,
            Err(e) => e.kind == message_error(reader@) && forall|m: MessageView| m.tag.id <= MAX_TAG
                && frame_encodable(m.frame) ==> #[trigger] message_content_wire(m) != reader@,
        },
{
    if reader.len() < 4 {
        return Err(eof());
    }
    let tpe = byte_to_kind(reader[0]);
    let (tag, _) = match decode_tag(reader, 1) {
        Ok(r) => r,
        Err(e) => return Err(e),
    };
    let body = &reader[4..reader.len()];
    proof {
        assert forall|m: MessageView| m.tag.id <= MAX_TAG && #[trigger] message_content_wire(m) == reader@ implies
            m.frame.kind() == tpe && m.tag == tag && frame_body_wire(m.frame) == body@ by {
            let w = message_content_wire(m);
            assert(w[0] == kind_byte(m.frame.kind()));
            assert(kind_byte(m.frame.kind()) == kind_byte(tpe));
            assert(m.frame.kind() == tpe);
            assert(tag_wire(m.tag) =~= w.subrange(1, 4));
            crate::codec::format::lemma_tag_injective(m.tag, tag);
            assert(frame_body_wire(m.frame) =~= w.subrange(4, w.len() as int));
        }
    }
    match decode_frame(tpe, body) {
        Ok(frame) => {
            let m = Message { tag, frame };
            assert(message_content_wire(m@) =~= reader@);
            Ok(m)
        },
        Err(e) => Err(e),
    }
}

/// Reads the length prefix of a frame: a signed 32-bit number that must be
/// at least 4. It counts the bytes that follow it.
pub fn decode_frame_length(reader: &[u8]) -> (r: Result<usize, Error>)
    ensures
        match r {
            Ok(n) => 4 <= n <= MAX_BODY + 4 && reader@.len() >= 4 && be32(n as u32) == reader@.subrange(0, 4)
                && n == be32_value(reader@, 0),
            Err(e) => (e.kind == ErrorKind::UnexpectedEof && reader@.len() < 4)
                || (e.kind == ErrorKind::InvalidData && reader@.len() >= 4
                && (be32_value(reader@, 0) < 4 || be32_value(reader@, 0) > MAX_BODY + 4) && forall|n: u32|
                    4 <= n <= MAX_BODY + 4 ==> #[trigger] be32(n) != reader@.subrange(0, 4)),
        },
{
    if reader.len() < 4 {
        return Err(eof());
    }
    let n = read_be32(reader, 0);
    proof {
        lemma_be32_value(n, reader@, 0);
    }
    if n < 4 || n > 0x7fff_ffff {
        proof {
            assert forall|m: u32| 4 <= m <= MAX_BODY + 4 implies #[trigger] be32(m) != reader@.subrange(0, 4) by {
                if be32(m) == reader@.subrange(0, 4) {
                    crate::bytes::lemma_be32_injective(m, n);
                }
            }
        }
        return Err(Error::new(ErrorKind::InvalidData, "Invalid mux frame size"));
    }
    Ok(n as usize)
}

/// Reads one whole message from the start of `reader`: its length prefix,
/// then exactly that many bytes. Returns the message and the number of
/// bytes it took; whatever follows is left alone.
pub fn read_message(reader: &[u8]) -> (r: Result<(Message, usize), Error>)
    ensures
        match r {
            Ok((m, used)) => used <= reader@.len() && message_encodable(m@) && frame_canonical(m@.frame)
                && reader@.subrange(0, used as int) == message_wire(m@),
            Err(e) => e.kind == read_error(reader@) && forall|m: MessageView| message_encodable(m)
                ==> !#[trigger] message_wire(m).is_prefix_of(reader@),
        },
{
    let n = match decode_frame_length(reader) {
        Ok(n) => n,
        Err(e) => {
            proof {
                assert forall|m: MessageView| message_encodable(m) implies !#[trigger] message_wire(m).is_prefix_of(reader@) by {
                    if message_wire(m).is_prefix_of(reader@) {
                        let len = (frame_body_wire(m.frame).len() + 4) as u32;
                        assert(be32(len) =~= reader@.subrange(0, 4));
                    }
                }
            }
            return Err(e);
        },
    };
    proof {
        assert forall|m: MessageView| message_encodable(m) && #[trigger] message_wire(m).is_prefix_of(reader@) implies
            frame_body_wire(m.frame).len() + 4 == n && reader@.len() >= 4 + n
            && message_content_wire(m) == reader@.subrange(4, 4 + n) by {
            let len = (frame_body_wire(m.frame).len() + 4) as u32;
            assert(be32(len) =~= reader@.subrange(0, 4));
            crate::bytes::lemma_be32_injective(len, n as u32);
            assert(message_content_wire(m) =~= message_wire(m).subrange(4, message_wire(m).len() as int));
        }
    }
    if reader.len() - 4 < n {
        return Err(eof());
    }
    let content = &reader[4..4 + n];
    assert(content@ == reader@.subrange(4, 4 + n));
    match decode_message(content) {
        Ok(m) => {
            assert(reader@.subrange(0, 4 + n) =~= message_wire(m@));
            Ok((m, 4 + n))
        },
        Err(e) => Err(e),
    }
}

} // verus!
