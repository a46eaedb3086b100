//! The byte layout of every mux structure, stated over the models, and the
//! facts that make decoding unambiguous.
use vstd::prelude::*;
use vstd::utf8::{encode_utf8, encode_utf8_decode_utf8};
use crate::bytes::{be16, be32, be64, lemma_be16_injective, lemma_be32_injective, lemma_be64_injective};
use crate::dtab::DentryView;
use crate::message::{
    Duration, FrameView, InitView, MessageView, RdispatchView, RmsgView, Tag, TdispatchView,
    TreqView, MAX_TAG,
};

verus! {

/// Largest body that a frame may carry: the length prefix is a signed 32-bit
/// number that also counts the kind byte and the tag.
pub const MAX_BODY: usize = 0x7fff_fffb;

/// The UTF-8 bytes of a string.
pub open spec fn utf8(s: Seq<char>) -> Seq<u8> {
    encode_utf8(s)
}

/// Two strings with the same UTF-8 bytes are equal.
pub proof fn lemma_utf8_injective(a: Seq<char>, b: Seq<char>)
    requires
        utf8(a) == utf8(b),
    ensures
        a == b,
{
    encode_utf8_decode_utf8(a);
    encode_utf8_decode_utf8(b);
}

/// The bytes of `s`'s entries, one after the other.
pub open spec fn flatten<A>(s: Seq<A>, f: spec_fn(A) -> Seq<u8>) -> Seq<u8>
    decreases s.len(),
{
    if s.len() == 0 {
        Seq::empty()
    } else {
        flatten(s.drop_last(), f) + f(s.last())
    }
}

/// No two admissible entries have encodings that both start the same bytes.
pub open spec fn prefix_free<A>(f: spec_fn(A) -> Seq<u8>, ok: spec_fn(A) -> bool) -> bool {
    forall|x: A, y: A, t: Seq<u8>|
        #![trigger f(x).is_prefix_of(t), f(y).is_prefix_of(t)]
        ok(x) && ok(y) && f(x).is_prefix_of(t) && f(y).is_prefix_of(t) ==> x == y
}

/// Every entry of `s` is admissible.
pub open spec fn all_ok<A>(s: Seq<A>, ok: spec_fn(A) -> bool) -> bool {
    forall|i: int| 0 <= i < s.len() ==> #[trigger] ok(s[i])
}

pub proof fn lemma_flatten_push<A>(s: Seq<A>, x: A, f: spec_fn(A) -> Seq<u8>)
    ensures
        flatten(s.push(x), f) == flatten(s, f) + f(x),
{
    assert(s.push(x).drop_last() =~= s);
}

pub proof fn lemma_flatten_append<A>(a: Seq<A>, b: Seq<A>, f: spec_fn(A) -> Seq<u8>)
    ensures
        flatten(a + b, f) == flatten(a, f) + flatten(b, f),
    decreases b.len(),
{
    if b.len() == 0 {
        assert(a + b =~= a);
        assert(flatten(a, f) + flatten(b, f) =~= flatten(a, f));
    } else {
        lemma_flatten_append(a, b.drop_last(), f);
        assert((a + b).drop_last() =~= a + b.drop_last());
        assert(flatten(a, f) + flatten(b, f) =~= flatten(a, f) + flatten(b.drop_last(), f) + f(
            b.last(),
        ));
    }
}

/// The encoding of a list starts with the encoding of its first entry.
pub proof fn lemma_flatten_first<A>(s: Seq<A>, f: spec_fn(A) -> Seq<u8>)
    requires
        s.len() > 0,
    ensures
        flatten(s, f) == f(s[0]) + flatten(s.drop_first(), f),
{
    let one = seq![s[0]];
    lemma_flatten_append(one, s.drop_first(), f);
    assert(one + s.drop_first() =~= s);
    assert(one.drop_last() =~= Seq::<A>::empty());
    assert(flatten(one.drop_last(), f) =~= Seq::<u8>::empty());
    assert(flatten(one, f) =~= f(s[0]));
}

/// Two lists of the same length whose encodings both start `t` are equal.
pub proof fn lemma_flatten_unique<A>(
    a: Seq<A>,
    b: Seq<A>,
    t: Seq<u8>,
    f: spec_fn(A) -> Seq<u8>,
    ok: spec_fn(A) -> bool,
)
    requires
        prefix_free(f, ok),
        all_ok(a, ok),
        all_ok(b, ok),
        a.len() == b.len(),
        flatten(a, f).is_prefix_of(t),
        flatten(b, f).is_prefix_of(t),
    ensures
        a == b,
    decreases a.len(),
{
    if a.len() == 0 {
        assert(a =~= b);
    } else {
        lemma_flatten_first(a, f);
        lemma_flatten_first(b, f);
        assert(f(a[0]).is_prefix_of(t));
        assert(f(b[0]).is_prefix_of(t));
        assert(ok(a[0]) && ok(b[0]));
        assert(a[0] == b[0]);
        let n = f(a[0]).len() as int;
        let t2 = t.subrange(n, t.len() as int);
        assert(flatten(a.drop_first(), f) =~= flatten(a, f).subrange(n, flatten(a, f).len() as int));
        assert(flatten(b.drop_first(), f) =~= flatten(b, f).subrange(n, flatten(b, f).len() as int));
        assert(flatten(a.drop_first(), f).is_prefix_of(t2));
        assert(flatten(b.drop_first(), f).is_prefix_of(t2));
        assert(all_ok(a.drop_first(), ok)) by {
            assert forall|i: int| 0 <= i < a.drop_first().len() implies #[trigger] ok(
                a.drop_first()[i],
            ) by {
                assert(ok(a[i + 1]));
            }
        }
        assert(all_ok(b.drop_first(), ok)) by {
            assert forall|i: int| 0 <= i < b.drop_first().len() implies #[trigger] ok(
                b.drop_first()[i],
            ) by {
                assert(ok(b[i + 1]));
            }
        }
        lemma_flatten_unique(a.drop_first(), b.drop_first(), t2, f, ok);
        assert(a =~= seq![a[0]] + a.drop_first());
        assert(b =~= seq![b[0]] + b.drop_first());
    }
}

/// Two lists of non-empty entries with the same encoding are equal.
pub proof fn lemma_flatten_injective<A>(
    a: Seq<A>,
    b: Seq<A>,
    f: spec_fn(A) -> Seq<u8>,
    ok: spec_fn(A) -> bool,
)
    requires
        prefix_free(f, ok),
        all_ok(a, ok),
        all_ok(b, ok),
        forall|x: A| ok(x) ==> #[trigger] f(x).len() > 0,
        flatten(a, f) == flatten(b, f),
    ensures
        a == b,
    decreases a.len() + b.len(),
{
    if a.len() == 0 || b.len() == 0 {
        if a.len() == 0 {
            assert(flatten(a, f) =~= Seq::<u8>::empty());
        }
        if b.len() == 0 {
            assert(flatten(b, f) =~= Seq::<u8>::empty());
        }
        if a.len() > 0 {
            lemma_flatten_first(a, f);
            assert(ok(a[0]));
        }
        if b.len() > 0 {
            lemma_flatten_first(b, f);
            assert(ok(b[0]));
        }
        assert(a =~= b);
    } else {
        let t = flatten(a, f);
        lemma_flatten_first(a, f);
        lemma_flatten_first(b, f);
        assert(f(a[0]).is_prefix_of(t));
        assert(f(b[0]).is_prefix_of(t));
        assert(ok(a[0]) && ok(b[0]));
        assert(a[0] == b[0]);
        let n = f(a[0]).len() as int;
        assert(flatten(a.drop_first(), f) =~= t.subrange(n, t.len() as int));
        assert(flatten(b.drop_first(), f) =~= t.subrange(n, t.len() as int));
        assert(all_ok(a.drop_first(), ok)) by {
            assert forall|i: int| 0 <= i < a.drop_first().len() implies #[trigger] ok(
                a.drop_first()[i],
            ) by {
                assert(ok(a[i + 1]));
            }
        }
        assert(all_ok(b.drop_first(), ok)) by {
            assert forall|i: int| 0 <= i < b.drop_first().len() implies #[trigger] ok(
                b.drop_first()[i],
            ) by {
                assert(ok(b[i + 1]));
            }
        }
        lemma_flatten_injective(a.drop_first(), b.drop_first(), f, ok);
        assert(a =~= seq![a[0]] + a.drop_first());
        assert(b =~= seq![b[0]] + b.drop_first());
    }
}

/// One `Treq` header: key byte, value length byte, value.
pub open spec fn header_entry(e: (u8, Seq<u8>)) -> Seq<u8> {
    seq![e.0, e.1.len() as u8] + e.1
}

pub open spec fn header_ok(e: (u8, Seq<u8>)) -> bool {
    e.1.len() <= 0xff
}

pub open spec fn header_entry_fn() -> spec_fn((u8, Seq<u8>)) -> Seq<u8> {
    |e: (u8, Seq<u8>)| header_entry(e)
}

pub open spec fn header_ok_fn() -> spec_fn((u8, Seq<u8>)) -> bool {
    |e: (u8, Seq<u8>)| header_ok(e)
}

/// At most 255 headers, each value at most 255 bytes.
pub open spec fn headers_ok(h: Seq<(u8, Seq<u8>)>) -> bool {
    h.len() <= 0xff && all_ok(h, header_ok_fn())
}

/// `Treq` headers: their count in one byte, then each header.
pub open spec fn headers_wire(h: Seq<(u8, Seq<u8>)>) -> Seq<u8> {
    seq![h.len() as u8] + flatten(h, header_entry_fn())
}

/// One context entry: key and value, each after its length in two bytes.
pub open spec fn ctx_entry(e: (Seq<u8>, Seq<u8>)) -> Seq<u8> {
    be16(e.0.len() as u16) + e.0 + be16(e.1.len() as u16) + e.1
}

pub open spec fn ctx_ok(e: (Seq<u8>, Seq<u8>)) -> bool {
    e.0.len() <= 0xffff && e.1.len() <= 0xffff
}

pub open spec fn ctx_entry_fn() -> spec_fn((Seq<u8>, Seq<u8>)) -> Seq<u8> {
    |e: (Seq<u8>, Seq<u8>)| ctx_entry(e)
}

pub open spec fn ctx_ok_fn() -> spec_fn((Seq<u8>, Seq<u8>)) -> bool {
    |e: (Seq<u8>, Seq<u8>)| ctx_ok(e)
}

/// At most 65535 contexts, each key and value at most 65535 bytes.
pub open spec fn contexts_ok(c: Seq<(Seq<u8>, Seq<u8>)>) -> bool {
    c.len() <= 0xffff && all_ok(c, ctx_ok_fn())
}

/// Contexts: their count in two bytes, then each entry.
pub open spec fn contexts_wire(c: Seq<(Seq<u8>, Seq<u8>)>) -> Seq<u8> {
    be16(c.len() as u16) + flatten(c, ctx_entry_fn())
}

/// A string of at most 65535 UTF-8 bytes.
pub open spec fn u16_string_ok(s: Seq<char>) -> bool {
    utf8(s).len() <= 0xffff
}

/// A string after the length of its UTF-8 bytes in two bytes.
pub open spec fn u16_string_wire(s: Seq<char>) -> Seq<u8> {
    be16(utf8(s).len() as u16) + utf8(s)
}

/// The UTF-8 bytes of each key and value of a delegation table.
pub open spec fn dtab_bytes(d: Seq<DentryView>) -> Seq<(Seq<u8>, Seq<u8>)> {
    d.map_values(|e: DentryView| (utf8(e.key), utf8(e.val)))
}

pub open spec fn dtab_ok(d: Seq<DentryView>) -> bool {
    contexts_ok(dtab_bytes(d))
}

/// A delegation table is laid out as contexts of the entries' UTF-8 bytes.
pub open spec fn dtab_wire(d: Seq<DentryView>) -> Seq<u8> {
    contexts_wire(dtab_bytes(d))
}

/// One init header: key and value, each after its length in four bytes.
pub open spec fn init_entry(e: (Seq<u8>, Seq<u8>)) -> Seq<u8> {
    be32(e.0.len() as u32) + e.0 + be32(e.1.len() as u32) + e.1
}

pub open spec fn init_entry_ok(e: (Seq<u8>, Seq<u8>)) -> bool {
    e.0.len() <= 0xffff_ffff && e.1.len() <= 0xffff_ffff
}

pub open spec fn init_entry_fn() -> spec_fn((Seq<u8>, Seq<u8>)) -> Seq<u8> {
    |e: (Seq<u8>, Seq<u8>)| init_entry(e)
}

pub open spec fn init_entry_ok_fn() -> spec_fn((Seq<u8>, Seq<u8>)) -> bool {
    |e: (Seq<u8>, Seq<u8>)| init_entry_ok(e)
}

pub open spec fn init_ok(i: InitView) -> bool {
    all_ok(i.headers, init_entry_ok_fn())
}

/// Init: the version in two bytes, then the headers up to the end of the frame.
pub open spec fn init_wire(i: InitView) -> Seq<u8> {
    be16(i.version) + flatten(i.headers, init_entry_fn())
}

pub proof fn lemma_header_entry_prefix_free()
    ensures
        prefix_free(header_entry_fn(), header_ok_fn()),
{
    assert forall|x: (u8, Seq<u8>), y: (u8, Seq<u8>), t: Seq<u8>|
        #![trigger header_entry_fn()(x).is_prefix_of(t), header_entry_fn()(y).is_prefix_of(t)]
        header_ok_fn()(x) && header_ok_fn()(y) && header_entry_fn()(x).is_prefix_of(t)
            && header_entry_fn()(y).is_prefix_of(t) implies x == y by {
        assert(header_entry(x)[0] == t[0] && header_entry(y)[0] == t[0]);
        assert(header_entry(x)[1] == t[1] && header_entry(y)[1] == t[1]);
        assert(x.1.len() == y.1.len());
        let n = x.1.len() as int;
        assert(x.1 =~= t.subrange(2, 2 + n)) by {
            assert(x.1 =~= header_entry(x).subrange(2, 2 + n));
        }
        assert(y.1 =~= t.subrange(2, 2 + n)) by {
            assert(y.1 =~= header_entry(y).subrange(2, 2 + n));
        }
    }
}

pub proof fn lemma_ctx_entry_prefix_free()
    ensures
        prefix_free(ctx_entry_fn(), ctx_ok_fn()),
{
    assert forall|x: (Seq<u8>, Seq<u8>), y: (Seq<u8>, Seq<u8>), t: Seq<u8>|
        #![trigger ctx_entry_fn()(x).is_prefix_of(t), ctx_entry_fn()(y).is_prefix_of(t)]
        ctx_ok_fn()(x) && ctx_ok_fn()(y) && ctx_entry_fn()(x).is_prefix_of(t)
            && ctx_entry_fn()(y).is_prefix_of(t) implies x == y by {
        let ex = ctx_entry(x);
        let ey = ctx_entry(y);
        assert(be16(x.0.len() as u16) =~= t.subrange(0, 2)) by {
            assert(be16(x.0.len() as u16) =~= ex.subrange(0, 2));
        }
        assert(be16(y.0.len() as u16) =~= t.subrange(0, 2)) by {
            assert(be16(y.0.len() as u16) =~= ey.subrange(0, 2));
        }
        lemma_be16_injective(x.0.len() as u16, y.0.len() as u16);
        let n = x.0.len() as int;
        assert(x.0 =~= t.subrange(2, 2 + n)) by {
            assert(x.0 =~= ex.subrange(2, 2 + n));
        }
        assert(y.0 =~= t.subrange(2, 2 + n)) by {
            assert(y.0 =~= ey.subrange(2, 2 + n));
        }
        assert(be16(x.1.len() as u16) =~= t.subrange(2 + n, 4 + n)) by {
            assert(be16(x.1.len() as u16) =~= ex.subrange(2 + n, 4 + n));
        }
        assert(be16(y.1.len() as u16) =~= t.subrange(2 + n, 4 + n)) by {
            assert(be16(y.1.len() as u16) =~= ey.subrange(2 + n, 4 + n));
        }
        lemma_be16_injective(x.1.len() as u16, y.1.len() as u16);
        let m = x.1.len() as int;
        assert(x.1 =~= t.subrange(4 + n, 4 + n + m)) by {
            assert(x.1 =~= ex.subrange(4 + n, 4 + n + m));
        }
        assert(y.1 =~= t.subrange(4 + n, 4 + n + m)) by {
            assert(y.1 =~= ey.subrange(4 + n, 4 + n + m));
        }
    }
}

pub proof fn lemma_init_entry_prefix_free()
    ensures
        prefix_free(init_entry_fn(), init_entry_ok_fn()),
        forall|x: (Seq<u8>, Seq<u8>)| init_entry_ok_fn()(x) ==> #[trigger] init_entry_fn()(x).len()
            > 0,
{
    assert forall|x: (Seq<u8>, Seq<u8>), y: (Seq<u8>, Seq<u8>), t: Seq<u8>|
        #![trigger init_entry_fn()(x).is_prefix_of(t), init_entry_fn()(y).is_prefix_of(t)]
        init_entry_ok_fn()(x) && init_entry_ok_fn()(y) && init_entry_fn()(x).is_prefix_of(t)
            && init_entry_fn()(y).is_prefix_of(t) implies x == y by {
        let ex = init_entry(x);
        let ey = init_entry(y);
        assert(be32(x.0.len() as u32) =~= t.subrange(0, 4)) by {
            assert(be32(x.0.len() as u32) =~= ex.subrange(0, 4));
        }
        assert(be32(y.0.len() as u32) =~= t.subrange(0, 4)) by {
            assert(be32(y.0.len() as u32) =~= ey.subrange(0, 4));
        }
        lemma_be32_injective(x.0.len() as u32, y.0.len() as u32);
        let n = x.0.len() as int;
        assert(x.0 =~= t.subrange(4, 4 + n)) by {
            assert(x.0 =~= ex.subrange(4, 4 + n));
        }
        assert(y.0 =~= t.subrange(4, 4 + n)) by {
            assert(y.0 =~= ey.subrange(4, 4 + n));
        }
        assert(be32(x.1.len() as u32) =~= t.subrange(4 + n, 8 + n)) by {
            assert(be32(x.1.len() as u32) =~= ex.subrange(4 + n, 8 + n));
        }
        assert(be32(y.1.len() as u32) =~= t.subrange(4 + n, 8 + n)) by {
            assert(be32(y.1.len() as u32) =~= ey.subrange(4 + n, 8 + n));
        }
        lemma_be32_injective(x.1.len() as u32, y.1.len() as u32);
        let m = x.1.len() as int;
        assert(x.1 =~= t.subrange(8 + n, 8 + n + m)) by {
            assert(x.1 =~= ex.subrange(8 + n, 8 + n + m));
        }
        assert(y.1 =~= t.subrange(8 + n, 8 + n + m)) by {
            assert(y.1 =~= ey.subrange(8 + n, 8 + n + m));
        }
    }
}

/// Admissible headers whose encodings both start `t` are equal.
pub proof fn lemma_headers_unique(a: Seq<(u8, Seq<u8>)>, b: Seq<(u8, Seq<u8>)>, t: Seq<u8>)
    requires
        headers_ok(a),
        headers_ok(b),
        headers_wire(a).is_prefix_of(t),
        headers_wire(b).is_prefix_of(t),
    ensures
        a == b,
{
    assert(headers_wire(a)[0] == t[0] && headers_wire(b)[0] == t[0]);
    let t2 = t.subrange(1, t.len() as int);
    assert(flatten(a, header_entry_fn()) =~= headers_wire(a).subrange(1, headers_wire(a).len() as int));
    assert(flatten(b, header_entry_fn()) =~= headers_wire(b).subrange(1, headers_wire(b).len() as int));
    lemma_header_entry_prefix_free();
    lemma_flatten_unique(a, b, t2, header_entry_fn(), header_ok_fn());
}

/// Admissible contexts whose encodings both start `t` are equal.
pub proof fn lemma_contexts_unique(
    a: Seq<(Seq<u8>, Seq<u8>)>,
    b: Seq<(Seq<u8>, Seq<u8>)>,
    t: Seq<u8>,
)
    requires
        contexts_ok(a),
        contexts_ok(b),
        contexts_wire(a).is_prefix_of(t),
        contexts_wire(b).is_prefix_of(t),
    ensures
        a == b,
{
    assert(be16(a.len() as u16) =~= contexts_wire(a).subrange(0, 2));
    assert(be16(b.len() as u16) =~= contexts_wire(b).subrange(0, 2));
    assert(contexts_wire(a).subrange(0, 2) =~= t.subrange(0, 2));
    assert(contexts_wire(b).subrange(0, 2) =~= t.subrange(0, 2));
    lemma_be16_injective(a.len() as u16, b.len() as u16);
    let t2 = t.subrange(2, t.len() as int);
    assert(flatten(a, ctx_entry_fn()) =~= contexts_wire(a).subrange(2, contexts_wire(a).len() as int));
    assert(flatten(b, ctx_entry_fn()) =~= contexts_wire(b).subrange(2, contexts_wire(b).len() as int));
    lemma_ctx_entry_prefix_free();
    lemma_flatten_unique(a, b, t2, ctx_entry_fn(), ctx_ok_fn());
}

/// Strings whose encodings both start `t` are equal.
pub proof fn lemma_u16_string_unique(a: Seq<char>, b: Seq<char>, t: Seq<u8>)
    requires
        u16_string_ok(a),
        u16_string_ok(b),
        u16_string_wire(a).is_prefix_of(t),
        u16_string_wire(b).is_prefix_of(t),
    ensures
        a == b,
{
    assert(be16(utf8(a).len() as u16) =~= u16_string_wire(a).subrange(0, 2));
    assert(be16(utf8(b).len() as u16) =~= u16_string_wire(b).subrange(0, 2));
    assert(u16_string_wire(a).subrange(0, 2) =~= t.subrange(0, 2));
    assert(u16_string_wire(b).subrange(0, 2) =~= t.subrange(0, 2));
    lemma_be16_injective(utf8(a).len() as u16, utf8(b).len() as u16);
    let n = utf8(a).len() as int;
    assert(utf8(a) =~= t.subrange(2, 2 + n)) by {
        assert(utf8(a) =~= u16_string_wire(a).subrange(2, 2 + n));
    }
    assert(utf8(b) =~= t.subrange(2, 2 + n)) by {
        assert(utf8(b) =~= u16_string_wire(b).subrange(2, 2 + n));
    }
    lemma_utf8_injective(a, b);
}

/// Admissible delegation tables whose encodings both start `t` are equal.
pub proof fn lemma_dtab_unique(a: Seq<DentryView>, b: Seq<DentryView>, t: Seq<u8>)
    requires
        dtab_ok(a),
        dtab_ok(b),
        dtab_wire(a).is_prefix_of(t),
        dtab_wire(b).is_prefix_of(t),
    ensures
        a == b,
{
    lemma_contexts_unique(dtab_bytes(a), dtab_bytes(b), t);
    assert(a.len() == b.len());
    assert forall|i: int| 0 <= i < a.len() implies a[i] == b[i] by {
        assert(dtab_bytes(a)[i] == dtab_bytes(b)[i]);
        lemma_utf8_injective(a[i].key, b[i].key);
        lemma_utf8_injective(a[i].val, b[i].val);
    }
    assert(a =~= b);
}

/// Admissible init frames with the same encoding are equal.
pub proof fn lemma_init_injective(a: InitView, b: InitView)
    requires
        init_ok(a),
        init_ok(b),
        init_wire(a) == init_wire(b),
    ensures
        a == b,
{
    assert(be16(a.version) =~= init_wire(a).subrange(0, 2));
    assert(be16(b.version) =~= init_wire(b).subrange(0, 2));
    lemma_be16_injective(a.version, b.version);
    assert(flatten(a.headers, init_entry_fn()) =~= init_wire(a).subrange(2, init_wire(a).len() as int));
    assert(flatten(b.headers, init_entry_fn()) =~= init_wire(b).subrange(2, init_wire(b).len() as int));
    lemma_init_entry_prefix_free();
    lemma_flatten_injective(a.headers, b.headers, init_entry_fn(), init_entry_ok_fn());
}

/// A tag in three bytes: the top bit set when more fragments follow, then the
/// 23-bit id, most significant bits first.
pub open spec fn tag_wire(t: Tag) -> Seq<u8> {
    seq![
        ((t.id / 0x1_0000) % 0x80 + if t.end { 0int } else { 0x80int }) as u8,
        ((t.id / 0x100) % 0x100) as u8,
        (t.id % 0x100) as u8,
    ]
}

/// Tags with ids of 23 bits and the same encoding are equal.
pub proof fn lemma_tag_injective(a: Tag, b: Tag)
    requires
        a.id <= MAX_TAG,
        b.id <= MAX_TAG,
        tag_wire(a) == tag_wire(b),
    ensures
        a == b,
{
    assert(tag_wire(a)[0] == tag_wire(b)[0]);
    assert(tag_wire(a)[1] == tag_wire(b)[1]);
    assert(tag_wire(a)[2] == tag_wire(b)[2]);
    assert(a.end == b.end);
    assert(a.id == b.id) by (nonlinear_arith)
        requires
            a.id <= 0x7f_ffff,
            b.id <= 0x7f_ffff,
            (a.id / 0x1_0000) % 0x80 == (b.id / 0x1_0000) % 0x80,
            (a.id / 0x100) % 0x100 == (b.id / 0x100) % 0x100,
            a.id % 0x100 == b.id % 0x100,
    {
        assert(a.id == (a.id / 0x1_0000) * 0x1_0000 + ((a.id / 0x100) % 0x100) * 0x100 + a.id
            % 0x100);
        assert(b.id == (b.id / 0x1_0000) * 0x1_0000 + ((b.id / 0x100) % 0x100) * 0x100 + b.id
            % 0x100);
    }
}

/// The status byte of a reply.
pub open spec fn rmsg_status(m: RmsgView) -> u8 {
    match m {
        RmsgView::Success(_) => 0,
        RmsgView::Error(_) => 1,
        RmsgView::Nack(_) => 2,
    }
}

/// The payload of a reply: its body, or the UTF-8 bytes of its description.
pub open spec fn rmsg_payload(m: RmsgView) -> Seq<u8> {
    match m {
        RmsgView::Success(b) => b,
        RmsgView::Error(s) => utf8(s),
        RmsgView::Nack(s) => utf8(s),
    }
}

/// `Rreq`: the status byte, then the payload.
pub open spec fn rreq_wire(m: RmsgView) -> Seq<u8> {
    seq![rmsg_status(m)] + rmsg_payload(m)
}

/// `Treq`: the headers, then the body.
pub open spec fn treq_wire(t: TreqView) -> Seq<u8> {
    headers_wire(t.headers) + t.body
}

pub open spec fn tdispatch_ok(t: TdispatchView) -> bool {
    contexts_ok(t.contexts) && u16_string_ok(t.dest) && dtab_ok(t.dtab)
}

/// `Tdispatch`: contexts, destination, delegation table, then the body.
pub open spec fn tdispatch_wire(t: TdispatchView) -> Seq<u8> {
    contexts_wire(t.contexts) + u16_string_wire(t.dest) + dtab_wire(t.dtab) + t.body
}

/// `Rdispatch`: the status byte, the contexts, then the payload.
pub open spec fn rdispatch_wire(r: RdispatchView) -> Seq<u8> {
    seq![rmsg_status(r.msg)] + contexts_wire(r.contexts) + rmsg_payload(r.msg)
}

/// `Tdiscarded`: the id in three bytes, then the reason.
pub open spec fn tdiscarded_wire(id: u32, msg: Seq<char>) -> Seq<u8> {
    seq![((id / 0x1_0000) % 0x100) as u8, ((id / 0x100) % 0x100) as u8, (id % 0x100) as u8]
        + utf8(msg)
}

/// `Tlease`: the unit byte 0 (milliseconds), then the milliseconds in eight bytes.
pub open spec fn lease_wire(d: Duration) -> Seq<u8> {
    seq![0u8] + be64(d.millis() as u64)
}

/// The body of a frame: what follows the kind byte and the tag.
pub open spec fn frame_body_wire(f: FrameView) -> Seq<u8> {
    match f {
        FrameView::Treq(t) => treq_wire(t),
        FrameView::Rreq(m) => rreq_wire(m),
        FrameView::Tdispatch(t) => tdispatch_wire(t),
        FrameView::Rdispatch(r) => rdispatch_wire(r),
        FrameView::Tinit(i) => init_wire(i),
        FrameView::Rinit(i) => init_wire(i),
        FrameView::Tdrain => Seq::empty(),
        FrameView::Rdrain => Seq::empty(),
        FrameView::Tping => Seq::empty(),
        FrameView::Rping => Seq::empty(),
        FrameView::Tdiscarded { id, msg } => tdiscarded_wire(id, msg),
        FrameView::Tlease(d) => lease_wire(d),
        FrameView::Rerr(msg) => utf8(msg),
    }
}

/// Every count and length of the frame fits its field.
pub open spec fn frame_encodable(f: FrameView) -> bool {
    match f {
        FrameView::Treq(t) => headers_ok(t.headers),
        FrameView::Tdispatch(t) => tdispatch_ok(t),
        FrameView::Rdispatch(r) => contexts_ok(r.contexts),
        FrameView::Tinit(i) => init_ok(i),
        FrameView::Rinit(i) => init_ok(i),
        FrameView::Tdiscarded { id, .. } => id <= 0xff_ffff,
        FrameView::Tlease(d) => d.millis() <= u64::MAX,
        _ => true,
    }
}

/// An encodable frame whose lease, if any, is a whole number of
/// milliseconds: exactly the frames that decoding gives back.
pub open spec fn frame_canonical(f: FrameView) -> bool {
    &&& frame_encodable(f)
    &&& (f matches FrameView::Tlease(d) ==> d.nanos < 1_000_000_000 && d.nanos % 1_000_000 == 0)
}

/// The byte that carries a frame kind code.
pub open spec fn kind_byte(k: i8) -> u8 {
    if k < 0 {
        (k + 256) as u8
    } else {
        k as u8
    }
}

/// A message without its length prefix: kind byte, tag, body.
pub open spec fn message_content_wire(m: MessageView) -> Seq<u8> {
    seq![kind_byte(m.frame.kind())] + tag_wire(m.tag) + frame_body_wire(m.frame)
}

/// A whole message on the wire: its length in four bytes, then its content.
pub open spec fn message_wire(m: MessageView) -> Seq<u8> {
    be32((frame_body_wire(m.frame).len() + 4) as u32) + message_content_wire(m)
}

/// The tag id has 23 bits, the frame is encodable and its body fits the
/// length prefix.
pub open spec fn message_encodable(m: MessageView) -> bool {
    &&& m.tag.id <= MAX_TAG
    &&& frame_encodable(m.frame)
    &&& frame_body_wire(m.frame).len() <= MAX_BODY
}

/// An encodable message with a canonical frame.
pub open spec fn message_canonical(m: MessageView) -> bool {
    message_encodable(m) && frame_canonical(m.frame)
}

proof fn lemma_tail_equal(a: Seq<u8>, b: Seq<u8>, c: Seq<u8>, d: Seq<u8>)
    requires
        a + b == c + d,
        a.len() == c.len(),
    ensures
        a == c,
        b == d,
{
    assert(a =~= (a + b).subrange(0, a.len() as int));
    assert(c =~= (c + d).subrange(0, a.len() as int));
    assert(b =~= (a + b).subrange(a.len() as int, (a + b).len() as int));
    assert(d =~= (c + d).subrange(a.len() as int, (c + d).len() as int));
}

proof fn lemma_rmsg_unique(a: RmsgView, b: RmsgView)
    requires
        rmsg_status(a) == rmsg_status(b),
        rmsg_payload(a) == rmsg_payload(b),
    ensures
        a == b,
{
    match a {
        RmsgView::Success(_) => {},
        RmsgView::Error(s) => {
            if let RmsgView::Error(s2) = b {
                lemma_utf8_injective(s, s2);
            }
        },
        RmsgView::Nack(s) => {
            if let RmsgView::Nack(s2) = b {
                lemma_utf8_injective(s, s2);
            }
        },
    }
}

proof fn lemma_tdispatch_unique(a: TdispatchView, b: TdispatchView)
    requires
        tdispatch_ok(a),
        tdispatch_ok(b),
        tdispatch_wire(a) == tdispatch_wire(b),
    ensures
        a == b,
{
    let t = tdispatch_wire(a);
    assert(contexts_wire(a.contexts).is_prefix_of(t));
    assert(contexts_wire(b.contexts).is_prefix_of(t));
    lemma_contexts_unique(a.contexts, b.contexts, t);
    let n = contexts_wire(a.contexts).len() as int;
    let t1 = t.subrange(n, t.len() as int);
    assert(t1 =~= u16_string_wire(a.dest) + dtab_wire(a.dtab) + a.body);
    assert(t1 =~= u16_string_wire(b.dest) + dtab_wire(b.dtab) + b.body);
    assert(u16_string_wire(a.dest).is_prefix_of(t1));
    assert(u16_string_wire(b.dest).is_prefix_of(t1));
    lemma_u16_string_unique(a.dest, b.dest, t1);
    let m = u16_string_wire(a.dest).len() as int;
    let t2 = t1.subrange(m, t1.len() as int);
    assert(t2 =~= dtab_wire(a.dtab) + a.body);
    assert(t2 =~= dtab_wire(b.dtab) + b.body);
    assert(dtab_wire(a.dtab).is_prefix_of(t2));
    assert(dtab_wire(b.dtab).is_prefix_of(t2));
    lemma_dtab_unique(a.dtab, b.dtab, t2);
    lemma_tail_equal(dtab_wire(a.dtab), a.body, dtab_wire(b.dtab), b.body);
}

proof fn lemma_lease_unique(a: Duration, b: Duration)
    requires
        a.millis() <= u64::MAX,
        b.millis() <= u64::MAX,
        a.nanos < 1_000_000_000 && a.nanos % 1_000_000 == 0,
        b.nanos < 1_000_000_000 && b.nanos % 1_000_000 == 0,
        lease_wire(a) == lease_wire(b),
    ensures
        a == b,
{
    lemma_tail_equal(seq![0u8], be64(a.millis() as u64), seq![0u8], be64(b.millis() as u64));
    lemma_be64_injective(a.millis() as u64, b.millis() as u64);
    let qa = a.nanos / 1_000_000;
    let qb = b.nanos / 1_000_000;
    assert(qa < 1000 && qb < 1000);
    assert(a.secs == b.secs && qa == qb) by (nonlinear_arith)
        requires
            a.secs * 1000 + qa == b.secs * 1000 + qb,
            0 <= qa < 1000,
            0 <= qb < 1000,
    {}
    assert(a.nanos == qa * 1_000_000);
    assert(b.nanos == qb * 1_000_000);
}

/// Decoding is unambiguous: two canonical frames of one kind with the same
/// body are the same frame, so decoding the body of a frame gives it back.
pub proof fn lemma_frame_unique(f: FrameView, g: FrameView)
    requires
        frame_canonical(f),
        frame_canonical(g),
        f.kind() == g.kind(),
        frame_body_wire(f) == frame_body_wire(g),
    ensures
        f == g,
{
    match f {
        FrameView::Treq(a) => {
            let b = g->Treq_0;
            let t = treq_wire(a);
            assert(headers_wire(a.headers).is_prefix_of(t));
            assert(headers_wire(b.headers).is_prefix_of(t));
            lemma_headers_unique(a.headers, b.headers, t);
            lemma_tail_equal(headers_wire(a.headers), a.body, headers_wire(b.headers), b.body);
        },
        FrameView::Rreq(a) => {
            let b = g->Rreq_0;
            lemma_tail_equal(seq![rmsg_status(a)], rmsg_payload(a), seq![rmsg_status(b)], rmsg_payload(b));
            assert(seq![rmsg_status(a)][0] == seq![rmsg_status(b)][0]);
            lemma_rmsg_unique(a, b);
        },
        FrameView::Tdispatch(a) => {
            lemma_tdispatch_unique(a, g->Tdispatch_0);
        },
        FrameView::Rdispatch(a) => {
            let b = g->Rdispatch_0;
            let t = rdispatch_wire(a);
            assert(t[0] == rmsg_status(a.msg) && t[0] == rmsg_status(b.msg));
            let t1 = t.subrange(1, t.len() as int);
            assert(t1 =~= contexts_wire(a.contexts) + rmsg_payload(a.msg));
            assert(t1 =~= contexts_wire(b.contexts) + rmsg_payload(b.msg));
            assert(contexts_wire(a.contexts).is_prefix_of(t1));
            assert(contexts_wire(b.contexts).is_prefix_of(t1));
            lemma_contexts_unique(a.contexts, b.contexts, t1);
            lemma_tail_equal(contexts_wire(a.contexts), rmsg_payload(a.msg), contexts_wire(b.contexts), rmsg_payload(b.msg));
            lemma_rmsg_unique(a.msg, b.msg);
        },
        FrameView::Tinit(a) => {
            lemma_init_injective(a, g->Tinit_0);
        },
        FrameView::Rinit(a) => {
            lemma_init_injective(a, g->Rinit_0);
        },
        FrameView::Tdiscarded { id, msg } => {
            let (id2, msg2) = (g->Tdiscarded_id, g->Tdiscarded_msg);
            let h1 = seq![((id / 0x1_0000) % 0x100) as u8, ((id / 0x100) % 0x100) as u8, (id % 0x100) as u8];
            let h2 = seq![((id2 / 0x1_0000) % 0x100) as u8, ((id2 / 0x100) % 0x100) as u8, (id2 % 0x100) as u8];
            lemma_tail_equal(h1, utf8(msg), h2, utf8(msg2));
            assert(h1[0] == h2[0] && h1[1] == h2[1] && h1[2] == h2[2]);
            lemma_utf8_injective(msg, msg2);
            assert(id == id2) by (nonlinear_arith)
                requires
                    id <= 0xff_ffff,
                    id2 <= 0xff_ffff,
                    (id / 0x1_0000) % 0x100 == (id2 / 0x1_0000) % 0x100,
                    (id / 0x100) % 0x100 == (id2 / 0x100) % 0x100,
                    id % 0x100 == id2 % 0x100,
            {
                assert(id == (id / 0x1_0000) * 0x1_0000 + ((id / 0x100) % 0x100) * 0x100 + id % 0x100);
                assert(id2 == (id2 / 0x1_0000) * 0x1_0000 + ((id2 / 0x100) % 0x100) * 0x100 + id2 % 0x100);
            }
        },
        FrameView::Tlease(a) => {
            lemma_lease_unique(a, g->Tlease_0);
        },
        FrameView::Rerr(a) => {
            lemma_utf8_injective(a, g->Rerr_0);
        },
        _ => {},
    }
}

/// When the first `acc.len()` entries of a list starting `t` are known to
/// be `acc`, the next entry's encoding starts where `acc`'s ends.
pub proof fn lemma_flatten_next<A>(
    full: Seq<A>,
    acc: Seq<A>,
    t: Seq<u8>,
    f: spec_fn(A) -> Seq<u8>,
    ok: spec_fn(A) -> bool,
)
    requires
        prefix_free(f, ok),
        all_ok(full, ok),
        all_ok(acc, ok),
        acc.len() < full.len(),
        flatten(full, f).is_prefix_of(t),
        flatten(acc, f).is_prefix_of(t),
    ensures
        ok(full[acc.len() as int]),
        f(full[acc.len() as int]).is_prefix_of(t.subrange(flatten(acc, f).len() as int, t.len() as int)),
{
    let i = acc.len() as int;
    let head = full.take(i);
    let tail = full.skip(i);
    lemma_flatten_append(head, tail, f);
    assert(head + tail =~= full);
    assert(flatten(head, f).is_prefix_of(t)) by {
        assert(flatten(head, f) =~= flatten(full, f).subrange(0, flatten(head, f).len() as int));
    }
    assert(all_ok(head, ok)) by {
        assert forall|j: int| 0 <= j < head.len() implies #[trigger] ok(head[j]) by {
            assert(ok(full[j]));
        }
    }
    lemma_flatten_unique(head, acc, t, f, ok);
    lemma_flatten_first(tail, f);
    assert(tail[0] == full[i]);
    assert(ok(full[i]));
    let n = flatten(acc, f).len() as int;
    let m = f(full[i]).len() as int;
    assert(f(full[i]) =~= flatten(full, f).subrange(n, n + m));
    assert(f(full[i]).is_prefix_of(t.subrange(n, t.len() as int)));
}

/// With non-empty entries: if `flatten(b)` is all of `t` and `flatten(a)`
/// starts `t`, then `a` is a prefix of `b`.
pub proof fn lemma_flatten_prefix_of_whole<A>(
    a: Seq<A>,
    b: Seq<A>,
    t: Seq<u8>,
    f: spec_fn(A) -> Seq<u8>,
    ok: spec_fn(A) -> bool,
)
    requires
        prefix_free(f, ok),
        all_ok(a, ok),
        all_ok(b, ok),
        forall|x: A| ok(x) ==> #[trigger] f(x).len() > 0,
        flatten(a, f).is_prefix_of(t),
        flatten(b, f) == t,
    ensures
        a.len() <= b.len(),
        b.take(a.len() as int) == a,
    decreases a.len(),
{
    if a.len() == 0 {
        assert(b.take(0) =~= a);
    } else {
        lemma_flatten_first(a, f);
        assert(ok(a[0]));
        if b.len() == 0 {
            assert(flatten(b, f) =~= Seq::<u8>::empty());
        } else {
            lemma_flatten_first(b, f);
            assert(ok(b[0]));
            assert(f(a[0]).is_prefix_of(t));
            assert(f(b[0]).is_prefix_of(t));
            assert(a[0] == b[0]);
            let n = f(a[0]).len() as int;
            let t2 = t.subrange(n, t.len() as int);
            assert(flatten(a.drop_first(), f) =~= flatten(a, f).subrange(n, flatten(a, f).len() as int));
            assert(flatten(b.drop_first(), f) =~= t2);
            assert(all_ok(a.drop_first(), ok)) by {
                assert forall|i: int| 0 <= i < a.drop_first().len() implies #[trigger] ok(
                    a.drop_first()[i],
                ) by {
                    assert(ok(a[i + 1]));
                }
            }
            assert(all_ok(b.drop_first(), ok)) by {
                assert forall|i: int| 0 <= i < b.drop_first().len() implies #[trigger] ok(
                    b.drop_first()[i],
                ) by {
                    assert(ok(b[i + 1]));
                }
            }
            lemma_flatten_prefix_of_whole(a.drop_first(), b.drop_first(), t2, f, ok);
            assert(b.take(a.len() as int) =~= seq![b[0]] + b.drop_first().take(a.len() - 1));
            assert(a =~= seq![a[0]] + a.drop_first());
        }
    }
}

/// Messages delimit themselves: two canonical messages whose encodings
/// both start the same bytes are the same message.
pub proof fn lemma_message_unique(a: MessageView, b: MessageView, t: Seq<u8>)
    requires
        message_canonical(a),
        message_canonical(b),
        message_wire(a).is_prefix_of(t),
        message_wire(b).is_prefix_of(t),
    ensures
        a == b,
{
    let (wa, wb) = (message_wire(a), message_wire(b));
    let na = (frame_body_wire(a.frame).len() + 4) as u32;
    let nb = (frame_body_wire(b.frame).len() + 4) as u32;
    assert(be32(na) =~= wa.subrange(0, 4));
    assert(be32(nb) =~= wb.subrange(0, 4));
    assert(wa.subrange(0, 4) =~= t.subrange(0, 4));
    assert(wb.subrange(0, 4) =~= t.subrange(0, 4));
    lemma_be32_injective(na, nb);
    assert(wa.len() == wb.len());
    assert(wa =~= wb) by {
        assert(wa =~= t.subrange(0, wa.len() as int));
        assert(wb =~= t.subrange(0, wb.len() as int));
    }
    assert(wa[4] == kind_byte(a.frame.kind()));
    assert(wb[4] == kind_byte(b.frame.kind()));
    assert(a.frame.kind() == b.frame.kind());
    assert(tag_wire(a.tag) =~= wa.subrange(5, 8));
    assert(tag_wire(b.tag) =~= wb.subrange(5, 8));
    lemma_tag_injective(a.tag, b.tag);
    assert(frame_body_wire(a.frame) =~= wa.subrange(8, wa.len() as int));
    assert(frame_body_wire(b.frame) =~= wb.subrange(8, wb.len() as int));
    lemma_frame_unique(a.frame, b.frame);
}

/// A stream holding one message twice reads back as that message twice:
/// the first message read from it can only be `m`, and what follows it is
/// `m`'s encoding again.
pub proof fn lemma_read_twice(m: MessageView, other: MessageView)
    requires
        message_canonical(m),
        message_canonical(other),
        message_wire(other).is_prefix_of(message_wire(m) + message_wire(m)),
    ensures
        other == m,
        (message_wire(m) + message_wire(m)).subrange(
            message_wire(m).len() as int,
            2 * message_wire(m).len() as int,
        ) == message_wire(m),
{
    let t = message_wire(m) + message_wire(m);
    assert(message_wire(m).is_prefix_of(t)) by {
        assert(t.subrange(0, message_wire(m).len() as int) =~= message_wire(m));
    }
    lemma_message_unique(m, other, t);
    assert(t.subrange(message_wire(m).len() as int, 2 * message_wire(m).len() as int) =~= message_wire(m));
}

} // verus!
