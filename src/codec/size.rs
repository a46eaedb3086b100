//! The exact number of bytes of each frame body, computed before it is written.
use vstd::prelude::*;
use crate::codec::format::{
    ctx_entry_fn, dtab_bytes, dtab_wire, flatten, frame_body_wire, header_entry_fn, init_entry_fn,
    init_wire, lemma_flatten_append, lemma_flatten_push, rdispatch_wire, rmsg_payload,
    contexts_wire, tdispatch_wire, treq_wire,
};
use crate::dtab::Dtab;
use crate::message::{Contexts, Init, MessageFrame, Rdispatch, Rmsg, Tdispatch, Treq};

verus! {

/// `acc + x`, when it is at most `limit`.
fn add_upto(acc: usize, x: usize, limit: usize) -> (r: Option<usize>)
    requires
        acc <= limit,
    ensures
        match r {
            Some(n) => n == acc + x && n <= limit,
            None => acc + x > limit,
        },
{
    if x <= limit - acc {
        Some(acc + x)
    } else {
        None
    }
}

proof fn lemma_flatten_take_len<A>(s: Seq<A>, i: int, f: spec_fn(A) -> Seq<u8>)
    requires
        0 <= i < s.len(),
    ensures
        flatten(s.take(i + 1), f).len() == flatten(s.take(i), f).len() + f(s[i]).len(),
        flatten(s.take(i + 1), f).len() <= flatten(s, f).len(),
{
    assert(s.take(i + 1) =~= s.take(i).push(s[i]));
    lemma_flatten_push(s.take(i), s[i], f);
    lemma_flatten_append(s.take(i + 1), s.skip(i + 1), f);
    assert(s.take(i + 1) + s.skip(i + 1) =~= s);
}

/// The bytes of the header entries, when at most `limit`.
fn headers_size_upto(headers: &Vec<(u8, Vec<u8>)>, acc: usize, limit: usize) -> (r: Option<usize>)
    requires
        acc <= limit,
    ensures
        match r {
            Some(n) => n == acc + flatten(headers.deep_view(), header_entry_fn()).len() && n <= limit,
            None => acc + flatten(headers.deep_view(), header_entry_fn()).len() > limit,
        },
{
    let ghost h = headers.deep_view();
    let mut size = acc;
    let mut i: usize = 0;
    assert(h.take(0) =~= Seq::<(u8, Seq<u8>)>::empty());
    while i < headers.len()
        invariant
            i <= headers.len(),
            h == headers.deep_view(),
            size <= limit,
            size == acc + flatten(h.take(i as int), header_entry_fn()).len(),
        decreases headers.len() - i,
    {
        proof {
            lemma_flatten_take_len(h, i as int, header_entry_fn());
        }
        let step = add_upto(size, 2, limit);
        match step {
            None => return None,
            Some(n) => {
                match add_upto(n, headers[i].1.len(), limit) {
                    None => return None,
                    Some(m) => size = m,
                }
            },
        }
        i += 1;
    }
    assert(h.take(i as int) =~= h);
    Some(size)
}

/// The bytes of the context entries, when at most `limit`.
fn contexts_size_upto(contexts: &Contexts, acc: usize, limit: usize) -> (r: Option<usize>)
    requires
        acc <= limit,
    ensures
        match r {
            Some(n) => n == acc + flatten(contexts.deep_view(), ctx_entry_fn()).len() && n <= limit,
            None => acc + flatten(contexts.deep_view(), ctx_entry_fn()).len() > limit,
        },
{
    let ghost c = contexts.deep_view();
    let mut size = acc;
    let mut i: usize = 0;
    assert(c.take(0) =~= Seq::<(Seq<u8>, Seq<u8>)>::empty());
    while i < contexts.len()
        invariant
            i <= contexts.len(),
            c == contexts.deep_view(),
            size <= limit,
            size == acc + flatten(c.take(i as int), ctx_entry_fn()).len(),
        decreases contexts.len() - i,
    {
        proof {
            lemma_flatten_take_len(c, i as int, ctx_entry_fn());
        }
        let (k, v) = (&contexts[i].0, &contexts[i].1);
        match add_upto(size, 4, limit) {
            None => return None,
            Some(n) => match add_upto(n, k.len(), limit) {
                None => return None,
                Some(m) => match add_upto(m, v.len(), limit) {
                    None => return None,
                    Some(p) => size = p,
                },
            },
        }
        i += 1;
    }
    assert(c.take(i as int) =~= c);
    Some(size)
}

/// The bytes of the table entries, when at most `limit`.
fn dtab_size_upto(table: &Dtab, acc: usize, limit: usize) -> (r: Option<usize>)
    requires
        acc <= limit,
    ensures
        match r {
            Some(n) => n == acc + flatten(dtab_bytes(table@), ctx_entry_fn()).len() && n <= limit,
            None => acc + flatten(dtab_bytes(table@), ctx_entry_fn()).len() > limit,
        },
{
    let ghost c = dtab_bytes(table@);
    let mut size = acc;
    let mut i: usize = 0;
    assert(c.take(0) =~= Seq::<(Seq<u8>, Seq<u8>)>::empty());
    while i < table.entries.len()
        invariant
            i <= table.entries.len(),
            c == dtab_bytes(table@),
            c.len() == table.entries.len(),
            size <= limit,
            size == acc + flatten(c.take(i as int), ctx_entry_fn()).len(),
        decreases table.entries.len() - i,
    {
        proof {
            lemma_flatten_take_len(c, i as int, ctx_entry_fn());
        }
        let e = &table.entries[i];
        let klen = e.key.as_str().as_bytes().len();
        let vlen = e.val.as_str().as_bytes().len();
        match add_upto(size, 4, limit) {
            None => return None,
            Some(n) => match add_upto(n, klen, limit) {
                None => return None,
                Some(m) => match add_upto(m, vlen, limit) {
                    None => return None,
                    Some(p) => size = p,
                },
            },
        }
        i += 1;
    }
    assert(c.take(i as int) =~= c);
    Some(size)
}

/// The bytes of the init entries, when at most `limit`.
fn init_size_upto(headers: &Contexts, acc: usize, limit: usize) -> (r: Option<usize>)
    requires
        acc <= limit,
    ensures
        match r {
            Some(n) => n == acc + flatten(headers.deep_view(), init_entry_fn()).len() && n <= limit,
            None => acc + flatten(headers.deep_view(), init_entry_fn()).len() > limit,
        },
{
    let ghost c = headers.deep_view();
    let mut size = acc;
    let mut i: usize = 0;
    assert(c.take(0) =~= Seq::<(Seq<u8>, Seq<u8>)>::empty());
    while i < headers.len()
        invariant
            i <= headers.len(),
            c == headers.deep_view(),
            size <= limit,
            size == acc + flatten(c.take(i as int), init_entry_fn()).len(),
        decreases headers.len() - i,
    {
        proof {
            lemma_flatten_take_len(c, i as int, init_entry_fn());
        }
        let (k, v) = (&headers[i].0, &headers[i].1);
        match add_upto(size, 8, limit) {
            None => return None,
            Some(n) => match add_upto(n, k.len(), limit) {
                None => return None,
                Some(m) => match add_upto(m, v.len(), limit) {
                    None => return None,
                    Some(p) => size = p,
                },
            },
        }
        i += 1;
    }
    assert(c.take(i as int) =~= c);
    Some(size)
}

/// The bytes of a reply's payload.
fn rmsg_payload_len(msg: &Rmsg) -> (r: usize)
    ensures
        r == rmsg_payload(msg@).len(),
{
    match msg {
        Rmsg::Success(b) => b.len(),
        Rmsg::Error(m) => m.as_str().as_bytes().len(),
        Rmsg::Nack(m) => m.as_str().as_bytes().len(),
    }
}

fn tdispatch_size_upto(t: &Tdispatch, limit: usize) -> (r: Option<usize>)
    ensures
        match r {
            Some(n) => n == tdispatch_wire(t@).len() && n <= limit,
            None => tdispatch_wire(t@).len() > limit,
        },
{
    if limit < 2 {
        return None;
    }
    let n = match contexts_size_upto(&t.contexts, 2, limit) {
        None => return None,
        Some(n) => n,
    };
    let n = match add_upto(n, 2, limit) {
        None => return None,
        Some(n) => n,
    };
    let n = match add_upto(n, t.dest.as_str().as_bytes().len(), limit) {
        None => return None,
        Some(n) => n,
    };
    let n = match add_upto(n, 2, limit) {
        None => return None,
        Some(n) => n,
    };
    let n = match dtab_size_upto(&t.dtab, n, limit) {
        None => return None,
        Some(n) => n,
    };
    add_upto(n, t.body.len(), limit)
}

fn rdispatch_size_upto(r: &Rdispatch, limit: usize) -> (res: Option<usize>)
    ensures
        match res {
            Some(n) => n == rdispatch_wire(r@).len() && n <= limit,
            None => rdispatch_wire(r@).len() > limit,
        },
{
    if limit < 3 {
        return None;
    }
    let n = match contexts_size_upto(&r.contexts, 3, limit) {
        None => return None,
        Some(n) => n,
    };
    add_upto(n, rmsg_payload_len(&r.msg), limit)
}

fn init_frame_size_upto(i: &Init, limit: usize) -> (r: Option<usize>)
    ensures
        match r {
            Some(n) => n == init_wire(i@).len() && n <= limit,
            None => init_wire(i@).len() > limit,
        },
{
    if limit < 2 {
        return None;
    }
    init_size_upto(&i.headers, 2, limit)
}

/// The size of a frame's body, when it is at most `limit`.
pub(crate) fn frame_size_upto(frame: &MessageFrame, limit: usize) -> (r: Option<usize>)
    ensures
        match r {
            Some(n) => n == frame_body_wire(frame@).len() && n <= limit,
            None => frame_body_wire(frame@).len() > limit,
        },
{
    match frame {
        MessageFrame::Treq(t) => {
            if limit < 1 {
                return None;
            }
            match headers_size_upto(&t.headers, 1, limit) {
                None => None,
                Some(n) => add_upto(n, t.body.len(), limit),
            }
        },
        MessageFrame::Rreq(m) => {
            if limit < 1 {
                return None;
            }
            add_upto(1, rmsg_payload_len(m), limit)
        },
        MessageFrame::Tdispatch(t) => tdispatch_size_upto(t, limit),
        MessageFrame::Rdispatch(r) => rdispatch_size_upto(r, limit),
        MessageFrame::Tinit(i) => init_frame_size_upto(i, limit),
        MessageFrame::Rinit(i) => init_frame_size_upto(i, limit),
        MessageFrame::Tdrain => Some(0),
        MessageFrame::Rdrain => Some(0),
        MessageFrame::Tping => Some(0),
        MessageFrame::Rping => Some(0),
        MessageFrame::Tlease(_) => add_upto(0, 9, limit),
        MessageFrame::Tdiscarded(d) => {
            if limit < 3 {
                return None;
            }
            add_upto(3, d.msg.as_str().as_bytes().len(), limit)
        },
        MessageFrame::Rerr(e) => add_upto(0, e.msg.as_str().as_bytes().len(), limit),
    }
}

/// Size of a frame's body, without the length prefix, the kind byte and the tag.
pub fn frame_size(frame: &MessageFrame) -> (r: usize)
    requires
        frame_body_wire(frame@).len() <= usize::MAX,
    ensures
        r == frame_body_wire(frame@).len(),
{
    match frame_size_upto(frame, usize::MAX) {
        Some(n) => n,
        None => 0,
    }
}

/// Size of a `Tdispatch` body: `2 + context_size + dtab_size + |dest| + |body|`.
pub fn tdispatch_size(msg: &Tdispatch) -> (r: usize)
    requires
        tdispatch_wire(msg@).len() <= usize::MAX,
    ensures
        r == tdispatch_wire(msg@).len(),
{
    match tdispatch_size_upto(msg, usize::MAX) {
        Some(n) => n,
        None => 0,
    }
}

/// Size of an `Rdispatch` body: `1 + context_size + |payload|`.
pub fn rdispatch_size(msg: &Rdispatch) -> (r: usize)
    requires
        rdispatch_wire(msg@).len() <= usize::MAX,
    ensures
        r == rdispatch_wire(msg@).len(),
{
    match rdispatch_size_upto(msg, usize::MAX) {
        Some(n) => n,
        None => 0,
    }
}

/// Size of a `Treq` body: `1 + Σ(2 + |value|) + |body|`.
pub fn treq_size(treq: &Treq) -> (r: usize)
    requires
        treq_wire(treq@).len() <= usize::MAX,
    ensures
        r == treq_wire(treq@).len(),
{
    match headers_size_upto(&treq.headers, 1, usize::MAX) {
        Some(n) => n + treq.body.len(),
        None => 0,
    }
}

/// Size of a reply's payload: its body, or the UTF-8 bytes of its description.
pub fn rmsg_size(msg: &Rmsg) -> (r: usize)
    ensures
        r == rmsg_payload(msg@).len(),
{
    rmsg_payload_len(msg)
}

/// Size of an init body: `2 + Σ(8 + |key| + |value|)`.
pub fn init_size(init: &Init) -> (r: usize)
    requires
        init_wire(init@).len() <= usize::MAX,
    ensures
        r == init_wire(init@).len(),
{
    match init_frame_size_upto(init, usize::MAX) {
        Some(n) => n,
        None => 0,
    }
}

/// Size of encoded contexts: `2 + Σ(4 + |key| + |value|)`.
pub fn context_size(contexts: &Contexts) -> (r: usize)
    requires
        contexts_wire(contexts.deep_view()).len() <= usize::MAX,
    ensures
        r == contexts_wire(contexts.deep_view()).len(),
{
    match contexts_size_upto(contexts, 2, usize::MAX) {
        Some(n) => n,
        None => 0,
    }
}

/// Size of an encoded delegation table: `2 + Σ(4 + |key| + |value|)`.
pub fn dtab_size(table: &Dtab) -> (r: usize)
    requires
        dtab_wire(table@).len() <= usize::MAX,
    ensures
        r == dtab_wire(table@).len(),
{
    match dtab_size_upto(table, 2, usize::MAX) {
        Some(n) => n,
        None => 0,
    }
}

} // verus!
