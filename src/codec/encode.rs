//! Encoding of mux messages into bytes.
//!
//! Every encoder first checks that each count and length fits its field and
//! only then appends bytes, so a value that cannot be encoded leaves the
//! output as it was.
use vstd::prelude::*;
use crate::bytes::{put_be16, put_be32, put_be64};
use crate::codec::format::{
    all_ok, contexts_ok, contexts_wire, ctx_entry, ctx_entry_fn, ctx_ok, ctx_ok_fn, dtab_bytes,
    dtab_ok, dtab_wire, flatten, frame_body_wire, frame_encodable, header_entry_fn, header_ok_fn,
    headers_ok, headers_wire, init_entry_fn, init_entry_ok_fn, init_ok, init_wire, kind_byte,
    lease_wire, lemma_flatten_push,
    message_content_wire, message_encodable, message_wire, rdispatch_wire, rmsg_payload,
    rmsg_status, rreq_wire, tag_wire, tdiscarded_wire, tdispatch_ok, tdispatch_wire, treq_wire,
    u16_string_ok, u16_string_wire, utf8, MAX_BODY,
};
use crate::codec::size::frame_size_upto;
use crate::dtab::Dtab;
use crate::error::{Error, ErrorKind};
use crate::message::{
    Contexts, Duration, Headers, Init, Message, MessageFrame, Rdispatch, Rmsg, Tag, Tdiscarded,
    Tdispatch, Treq, MAX_TAG,
};

verus! {

/// What an encoder promises: on success the encoding of the value was
/// appended; on failure, which comes exactly when the value cannot be
/// encoded, the output is unchanged and the error is `InvalidInput`.
pub open spec fn encoded(
    r: Result<(), Error>,
    before: Seq<u8>,
    after: Seq<u8>,
    encodable: bool,
    bytes: Seq<u8>,
) -> bool {
    match r {
        Ok(_) => encodable && after == before + bytes,
        Err(e) => !encodable && after == before && e.kind == ErrorKind::InvalidInput,
    }
}

fn length_overflow() -> (e: Error)
    ensures
        e.kind == ErrorKind::InvalidInput,
{
    Error::new(ErrorKind::InvalidInput, "Length overflow")
}

/// Appends `bytes` to `out`.
fn put_bytes(out: &mut Vec<u8>, bytes: &[u8])
    ensures
        final(out)@ == old(out)@ + bytes@,
{
    let ghost before = out@;
    let mut i: usize = 0;
    while i < bytes.len()
        invariant
            i <= bytes.len(),
            out@ == before + bytes@.take(i as int),
        decreases bytes.len() - i,
    {
        out.push(bytes[i]);
        i += 1;
        assert(out@ =~= before + bytes@.take(i as int));
    }
    assert(bytes@.take(i as int) =~= bytes@);
}

/// The kind code of a frame as the byte that carries it.
fn kind_to_byte(k: i8) -> (r: u8)
    ensures
        r == kind_byte(k),
{
    if k < 0 {
        (k as i16 + 256) as u8
    } else {
        k as u8
    }
}

/// Appends the three bytes of a tag: `(id >> 16 & 0x7f) | (end ? 0 : 0x80)`,
/// `id >> 8 & 0xff`, `id & 0xff`.
pub fn encode_tag(buffer: &mut Vec<u8>, tag: &Tag)
    requires
        tag.id <= MAX_TAG,
    ensures
        final(buffer)@ == old(buffer)@ + tag_wire(*tag),
{
    let id = tag.id;
    let top = ((id / 0x1_0000) % 0x80) as u8;
    let first = if tag.end {
        top
    } else {
        top + 0x80
    };
    buffer.push(first);
    buffer.push(((id / 0x100) % 0x100) as u8);
    buffer.push((id % 0x100) as u8);
    assert(buffer@ =~= old(buffer)@ + tag_wire(*tag));
}

/// Whether every header fits: at most 255 of them, each value at most 255 bytes.
fn headers_fit(headers: &Headers) -> (r: bool)
    ensures
        r == headers_ok(headers.deep_view()),
{
    if headers.len() > 0xff {
        return false;
    }
    let mut i: usize = 0;
    while i < headers.len()
        invariant
            i <= headers.len(),
            forall|j: int| 0 <= j < i ==> #[trigger] header_ok_fn()(headers.deep_view()[j]),
        decreases headers.len() - i,
    {
        if headers[i].1.len() > 0xff {
            assert(!header_ok_fn()(headers.deep_view()[i as int]));
            return false;
        }
        i += 1;
    }
    assert(all_ok(headers.deep_view(), header_ok_fn()));
    true
}

fn write_headers(writer: &mut Vec<u8>, headers: &Headers)
    requires
        headers_ok(headers.deep_view()),
    ensures
        final(writer)@ == old(writer)@ + headers_wire(headers.deep_view()),
{
    let ghost h = headers.deep_view();
    writer.push(headers.len() as u8);
    let mut i: usize = 0;
    assert(h.take(0) =~= Seq::<(u8, Seq<u8>)>::empty());
    while i < headers.len()
        invariant
            i <= headers.len(),
            h == headers.deep_view(),
            headers_ok(h),
            writer@ == old(writer)@ + seq![headers.len() as u8] + flatten(h.take(i as int), header_entry_fn()),
        decreases headers.len() - i,
    {
        let (k, v) = (&headers[i].0, &headers[i].1);
        assert(header_ok_fn()(h[i as int]));
        proof {
            lemma_flatten_push(h.take(i as int), h[i as int], header_entry_fn());
            assert(h.take(i + 1) =~= h.take(i as int).push(h[i as int]));
        }
        writer.push(*k);
        writer.push(v.len() as u8);
        put_bytes(writer, v.as_slice());
        i += 1;
        assert(writer@ =~= old(writer)@ + seq![headers.len() as u8] + flatten(h.take(i as int), header_entry_fn()));
    }
    assert(h.take(i as int) =~= h);
    assert(writer@ =~= old(writer)@ + headers_wire(h));
}

/// Appends the header count in one byte, then each header key, value
/// length and value.
pub fn encode_headers(writer: &mut Vec<u8>, headers: &Headers) -> (r: Result<(), Error>)
    ensures
        encoded(r, old(writer)@, final(writer)@, headers_ok(headers.deep_view()), headers_wire(headers.deep_view())),
{
    if !headers_fit(headers) {
        return Err(length_overflow());
    }
    write_headers(writer, headers);
    Ok(())
}

/// Whether the contexts fit: at most 65535 of them, each side at most 65535 bytes.
fn contexts_fit(contexts: &Contexts) -> (r: bool)
    ensures
        r == contexts_ok(contexts.deep_view()),
{
    if contexts.len() > 0xffff {
        return false;
    }
    let mut i: usize = 0;
    while i < contexts.len()
        invariant
            i <= contexts.len(),
            forall|j: int| 0 <= j < i ==> #[trigger] ctx_ok_fn()(contexts.deep_view()[j]),
        decreases contexts.len() - i,
    {
        if contexts[i].0.len() > 0xffff || contexts[i].1.len() > 0xffff {
            assert(!ctx_ok_fn()(contexts.deep_view()[i as int]));
            return false;
        }
        i += 1;
    }
    assert(all_ok(contexts.deep_view(), ctx_ok_fn()));
    true
}

/// Appends one context entry.
fn write_ctx_entry(writer: &mut Vec<u8>, k: &[u8], v: &[u8])
    requires
        ctx_ok((k@, v@)),
    ensures
        final(writer)@ == old(writer)@ + ctx_entry((k@, v@)),
{
    put_be16(writer, k.len() as u16);
    put_bytes(writer, k);
    put_be16(writer, v.len() as u16);
    put_bytes(writer, v);
    assert(writer@ =~= old(writer)@ + ctx_entry((k@, v@)));
}

fn write_contexts(writer: &mut Vec<u8>, contexts: &Contexts)
    requires
        contexts_ok(contexts.deep_view()),
    ensures
        final(writer)@ == old(writer)@ + contexts_wire(contexts.deep_view()),
{
    let ghost c = contexts.deep_view();
    put_be16(writer, contexts.len() as u16);
    let mut i: usize = 0;
    assert(c.take(0) =~= Seq::<(Seq<u8>, Seq<u8>)>::empty());
    while i < contexts.len()
        invariant
            i <= contexts.len(),
            c == contexts.deep_view(),
            contexts_ok(c),
            writer@ == old(writer)@ + crate::bytes::be16(contexts.len() as u16) + flatten(c.take(i as int), ctx_entry_fn()),
        decreases contexts.len() - i,
    {
        assert(ctx_ok_fn()(c[i as int]));
        proof {
            lemma_flatten_push(c.take(i as int), c[i as int], ctx_entry_fn());
            assert(c.take(i + 1) =~= c.take(i as int).push(c[i as int]));
        }
        write_ctx_entry(writer, contexts[i].0.as_slice(), contexts[i].1.as_slice());
        i += 1;
        assert(writer@ =~= old(writer)@ + crate::bytes::be16(contexts.len() as u16) + flatten(c.take(i as int), ctx_entry_fn()));
    }
    assert(c.take(i as int) =~= c);
    assert(writer@ =~= old(writer)@ + contexts_wire(c));
}

/// Appends the context count in two bytes, then each key and value after
/// its length in two bytes.
pub fn encode_contexts(writer: &mut Vec<u8>, contexts: &Contexts) -> (r: Result<(), Error>)
    ensures
        encoded(r, old(writer)@, final(writer)@, contexts_ok(contexts.deep_view()), contexts_wire(contexts.deep_view())),
{
    if !contexts_fit(contexts) {
        return Err(length_overflow());
    }
    write_contexts(writer, contexts);
    Ok(())
}

/// Whether the table fits: at most 65535 entries, each key and value at
/// most 65535 UTF-8 bytes.
fn dtab_fits(table: &Dtab) -> (r: bool)
    ensures
        r == dtab_ok(table@),
{
    let ghost c = dtab_bytes(table@);
    if table.entries.len() > 0xffff {
        return false;
    }
    let mut i: usize = 0;
    while i < table.entries.len()
        invariant
            i <= table.entries.len(),
            c == dtab_bytes(table@),
            forall|j: int| 0 <= j < i ==> #[trigger] ctx_ok_fn()(c[j]),
        decreases table.entries.len() - i,
    {
        let e = &table.entries[i];
        if e.key.as_str().as_bytes().len() > 0xffff || e.val.as_str().as_bytes().len() > 0xffff {
            assert(!ctx_ok_fn()(c[i as int]));
            return false;
        }
        i += 1;
    }
    assert(all_ok(c, ctx_ok_fn()));
    true
}

fn write_dtab(writer: &mut Vec<u8>, table: &Dtab)
    requires
        dtab_ok(table@),
    ensures
        final(writer)@ == old(writer)@ + dtab_wire(table@),
{
    let ghost c = dtab_bytes(table@);
    put_be16(writer, table.entries.len() as u16);
    let mut i: usize = 0;
    assert(c.take(0) =~= Seq::<(Seq<u8>, Seq<u8>)>::empty());
    while i < table.entries.len()
        invariant
            i <= table.entries.len(),
            c == dtab_bytes(table@),
            contexts_ok(c),
            writer@ == old(writer)@ + crate::bytes::be16(c.len() as u16) + flatten(c.take(i as int), ctx_entry_fn()),
        decreases table.entries.len() - i,
    {
        assert(ctx_ok_fn()(c[i as int]));
        proof {
            lemma_flatten_push(c.take(i as int), c[i as int], ctx_entry_fn());
            assert(c.take(i + 1) =~= c.take(i as int).push(c[i as int]));
        }
        let e = &table.entries[i];
        write_ctx_entry(writer, e.key.as_str().as_bytes(), e.val.as_str().as_bytes());
        i += 1;
        assert(writer@ =~= old(writer)@ + crate::bytes::be16(c.len() as u16) + flatten(c.take(i as int), ctx_entry_fn()));
    }
    assert(c.take(i as int) =~= c);
    assert(writer@ =~= old(writer)@ + dtab_wire(table@));
}

/// Appends the entry count in two bytes, then each key and value as a
/// string after its length in two bytes.
pub fn encode_dtab(writer: &mut Vec<u8>, table: &Dtab) -> (r: Result<(), Error>)
    ensures
        encoded(r, old(writer)@, final(writer)@, dtab_ok(table@), dtab_wire(table@)),
{
    if !dtab_fits(table) {
        return Err(length_overflow());
    }
    write_dtab(writer, table);
    Ok(())
}

fn write_u16_string(writer: &mut Vec<u8>, s: &str)
    requires
        u16_string_ok(s@),
    ensures
        final(writer)@ == old(writer)@ + u16_string_wire(s@),
{
    let bytes = s.as_bytes();
    put_be16(writer, bytes.len() as u16);
    put_bytes(writer, bytes);
    assert(writer@ =~= old(writer)@ + u16_string_wire(s@));
}

/// Appends the length of the UTF-8 bytes of the string in two bytes, then the bytes.
pub fn encode_u16_string(writer: &mut Vec<u8>, s: &str) -> (r: Result<(), Error>)
    ensures
        encoded(r, old(writer)@, final(writer)@, u16_string_ok(s@), u16_string_wire(s@)),
{
    if s.as_bytes().len() > 0xffff {
        return Err(length_overflow());
    }
    write_u16_string(writer, s);
    Ok(())
}

/// Whether each init header key and value fit a four-byte length.
fn init_fits(init: &Init) -> (r: bool)
    ensures
        r == init_ok(init@),
{
    let mut i: usize = 0;
    while i < init.headers.len()
        invariant
            i <= init.headers.len(),
            forall|j: int| 0 <= j < i ==> #[trigger] init_entry_ok_fn()(init.headers.deep_view()[j]),
        decreases init.headers.len() - i,
    {
        if init.headers[i].0.len() > 0xffff_ffff || init.headers[i].1.len() > 0xffff_ffff {
            assert(!init_entry_ok_fn()(init.headers.deep_view()[i as int]));
            return false;
        }
        i += 1;
    }
    assert(all_ok(init@.headers, init_entry_ok_fn()));
    true
}

fn write_init(writer: &mut Vec<u8>, msg: &Init)
    requires
        init_ok(msg@),
    ensures
        final(writer)@ == old(writer)@ + init_wire(msg@),
{
    let ghost c = msg.headers.deep_view();
    put_be16(writer, msg.version);
    let mut i: usize = 0;
    assert(c.take(0) =~= Seq::<(Seq<u8>, Seq<u8>)>::empty());
    while i < msg.headers.len()
        invariant
            i <= msg.headers.len(),
            c == msg.headers.deep_view(),
            init_ok(msg@),
            writer@ == old(writer)@ + crate::bytes::be16(msg.version) + flatten(c.take(i as int), init_entry_fn()),
        decreases msg.headers.len() - i,
    {
        assert(init_entry_ok_fn()(c[i as int]));
        proof {
            lemma_flatten_push(c.take(i as int), c[i as int], init_entry_fn());
            assert(c.take(i + 1) =~= c.take(i as int).push(c[i as int]));
        }
        let (k, v) = (&msg.headers[i].0, &msg.headers[i].1);
        put_be32(writer, k.len() as u32);
        put_bytes(writer, k.as_slice());
        put_be32(writer, v.len() as u32);
        put_bytes(writer, v.as_slice());
        i += 1;
        assert(writer@ =~= old(writer)@ + crate::bytes::be16(msg.version) + flatten(c.take(i as int), init_entry_fn()));
    }
    assert(c.take(i as int) =~= c);
    assert(writer@ =~= old(writer)@ + init_wire(msg@));
}

/// Appends the version in two bytes, then each header key and value after
/// its length in four bytes.
pub fn encode_init(writer: &mut Vec<u8>, msg: &Init) -> (r: Result<(), Error>)
    ensures
        encoded(r, old(writer)@, final(writer)@, init_ok(msg@), init_wire(msg@)),
{
    if !init_fits(msg) {
        return Err(length_overflow());
    }
    write_init(writer, msg);
    Ok(())
}

/// The status byte of a reply and the bytes of its payload.
fn rmsg_status_body(msg: &Rmsg) -> (r: (u8, &[u8]))
    ensures
        r.0 == rmsg_status(msg@),
        r.1@ == rmsg_payload(msg@),
{
    match msg {
        Rmsg::Success(body) => (0, body.as_slice()),
        Rmsg::Error(m) => (1, m.as_str().as_bytes()),
        Rmsg::Nack(m) => (2, m.as_str().as_bytes()),
    }
}

/// Appends the status byte, the contexts, then the payload.
pub fn encode_rdispatch(writer: &mut Vec<u8>, frame: &Rdispatch) -> (r: Result<(), Error>)
    ensures
        encoded(r, old(writer)@, final(writer)@, contexts_ok(frame@.contexts), rdispatch_wire(frame@)),
{
    if !contexts_fit(&frame.contexts) {
        return Err(length_overflow());
    }
    let (status, body) = rmsg_status_body(&frame.msg);
    writer.push(status);
    write_contexts(writer, &frame.contexts);
    put_bytes(writer, body);
    assert(writer@ =~= old(writer)@ + rdispatch_wire(frame@));
    Ok(())
}

/// Appends the status byte, then the payload. Every reply can be encoded.
pub fn encode_rreq(writer: &mut Vec<u8>, frame: &Rmsg) -> (r: Result<(), Error>)
    ensures
        encoded(r, old(writer)@, final(writer)@, true, rreq_wire(frame@)),
{
    let (status, body) = rmsg_status_body(frame);
    writer.push(status);
    put_bytes(writer, body);
    assert(writer@ =~= old(writer)@ + rreq_wire(frame@));
    Ok(())
}

/// Appends the contexts, the destination, the table, then the body.
pub fn encode_tdispatch(writer: &mut Vec<u8>, msg: &Tdispatch) -> (r: Result<(), Error>)
    ensures
        encoded(r, old(writer)@, final(writer)@, tdispatch_ok(msg@), tdispatch_wire(msg@)),
{
    if !contexts_fit(&msg.contexts) || msg.dest.as_str().as_bytes().len() > 0xffff || !dtab_fits(&msg.dtab) {
        return Err(length_overflow());
    }
    write_contexts(writer, &msg.contexts);
    write_u16_string(writer, msg.dest.as_str());
    write_dtab(writer, &msg.dtab);
    put_bytes(writer, msg.body.as_slice());
    assert(writer@ =~= old(writer)@ + tdispatch_wire(msg@));
    Ok(())
}

/// Appends the headers, then the body.
pub fn encode_treq(writer: &mut Vec<u8>, msg: &Treq) -> (r: Result<(), Error>)
    ensures
        encoded(r, old(writer)@, final(writer)@, headers_ok(msg@.headers), treq_wire(msg@)),
{
    if !headers_fit(&msg.headers) {
        return Err(length_overflow());
    }
    write_headers(writer, &msg.headers);
    put_bytes(writer, msg.body.as_slice());
    assert(writer@ =~= old(writer)@ + treq_wire(msg@));
    Ok(())
}

/// Appends the id in three bytes, then the reason; the id must fit 24 bits.
pub fn encode_tdiscarded(writer: &mut Vec<u8>, msg: &Tdiscarded) -> (r: Result<(), Error>)
    ensures
        encoded(r, old(writer)@, final(writer)@, msg.id <= 0xff_ffff, tdiscarded_wire(msg.id, msg.msg@)),
{
    if msg.id > 0xff_ffff {
        return Err(length_overflow());
    }
    writer.push(((msg.id / 0x1_0000) % 0x100) as u8);
    writer.push(((msg.id / 0x100) % 0x100) as u8);
    writer.push((msg.id % 0x100) as u8);
    put_bytes(writer, msg.msg.as_str().as_bytes());
    assert(writer@ =~= old(writer)@ + tdiscarded_wire(msg.id, msg.msg@));
    Ok(())
}

/// Appends the unit byte 0 (milliseconds), then `secs * 1000 + nanos / 1e6`
/// in eight bytes; the milliseconds must fit 64 bits.
pub fn encode_tlease_duration(writer: &mut Vec<u8>, d: &Duration) -> (r: Result<(), Error>)
    ensures
        encoded(r, old(writer)@, final(writer)@, d.millis() <= u64::MAX, lease_wire(*d)),
{
    let sub = (d.nanos / 1_000_000) as u64;
    if d.secs > (u64::MAX - sub) / 1000 {
        assert(d.millis() > u64::MAX) by (nonlinear_arith)
            requires
                d.secs > (u64::MAX - sub) / 1000,
                sub == d.nanos / 1_000_000,
                d.millis() == d.secs * 1000 + d.nanos / 1_000_000,
        {}
        return Err(length_overflow());
    }
    assert(d.secs * 1000 + sub <= u64::MAX) by (nonlinear_arith)
        requires
            d.secs <= (u64::MAX - sub) / 1000,
            sub <= u64::MAX,
    {}
    let millis = d.secs * 1000 + sub;
    writer.push(0);
    put_be64(writer, millis);
    assert(writer@ =~= old(writer)@ + lease_wire(*d));
    Ok(())
}

/// Appends the UTF-8 bytes of the message.
pub fn encode_rerr(writer: &mut Vec<u8>, msg: &str) -> (r: Result<(), Error>)
    ensures
        encoded(r, old(writer)@, final(writer)@, true, utf8(msg@)),
{
    put_bytes(writer, msg.as_bytes());
    Ok(())
}

/// Appends the body of a frame.
pub fn encode_frame(writer: &mut Vec<u8>, frame: &MessageFrame) -> (r: Result<(), Error>)
    ensures
        encoded(r, old(writer)@, final(writer)@, frame_encodable(frame@), frame_body_wire(frame@)),
{
    match frame {
        MessageFrame::Treq(f) => encode_treq(writer, f),
        MessageFrame::Rreq(f) => encode_rreq(writer, f),
        MessageFrame::Tdispatch(f) => encode_tdispatch(writer, f),
        MessageFrame::Rdispatch(f) => encode_rdispatch(writer, f),
        MessageFrame::Tinit(f) => encode_init(writer, f),
        MessageFrame::Rinit(f) => encode_init(writer, f),
        MessageFrame::Tping => Ok(()),
        MessageFrame::Rping => Ok(()),
        MessageFrame::Tdrain => Ok(()),
        MessageFrame::Rdrain => Ok(()),
        MessageFrame::Tdiscarded(f) => encode_tdiscarded(writer, f),
        MessageFrame::Tlease(f) => encode_tlease_duration(writer, &f.duration),
        MessageFrame::Rerr(f) => encode_rerr(writer, f.msg.as_str()),
    }
}

/// Appends a message without its length prefix: the kind byte, the tag and
/// the body. Fails when the tag id exceeds 23 bits or the frame cannot be
/// encoded.
pub fn encode_message(buffer: &mut Vec<u8>, msg: &Message) -> (r: Result<(), Error>)
    ensures
        encoded(r, old(buffer)@, final(buffer)@, msg.tag.id <= MAX_TAG && frame_encodable(msg.frame@), message_content_wire(msg@)),
{
    if msg.tag.id > MAX_TAG {
        return Err(length_overflow());
    }
    let mut body: Vec<u8> = Vec::new();
    match encode_frame(&mut body, &msg.frame) {
        Err(e) => return Err(e),
        Ok(_) => {},
    }
    buffer.push(kind_to_byte(msg.frame.frame_id()));
    encode_tag(buffer, &msg.tag);
    put_bytes(buffer, body.as_slice());
    assert(buffer@ =~= old(buffer)@ + message_content_wire(msg@));
    Ok(())
}

/// Appends a whole message: its length `4 + frame_size` as a signed 32-bit
/// number, then the kind byte, the tag and the body. Fails, writing nothing,
/// when the message cannot be encoded or its body exceeds [`MAX_BODY`].
pub fn write_message(buffer: &mut Vec<u8>, msg: &Message) -> (r: Result<(), Error>)
    ensures
        encoded(r, old(buffer)@, final(buffer)@, message_encodable(msg@), message_wire(msg@)),
{
    let size = match frame_size_upto(&msg.frame, MAX_BODY) {
        None => return Err(length_overflow()),
        Some(n) => n,
    };
    let mut content: Vec<u8> = Vec::new();
    match encode_message(&mut content, msg) {
        Err(e) => return Err(e),
        Ok(_) => {},
    }
    put_be32(buffer, (size + 4) as u32);
    put_bytes(buffer, content.as_slice());
    assert(buffer@ =~= old(buffer)@ + message_wire(msg@));
    Ok(())
}

} // verus!
