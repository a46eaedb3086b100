//! The messages of the mux protocol and their mathematical models.
use vstd::prelude::*;
use crate::dtab::{Dtab, DentryView};
use crate::types;

verus! {

/// Headers of a `Treq`: a key byte and a value for each.
pub type Headers = Vec<(u8, Vec<u8>)>;

/// Contexts of dispatch and init messages: ordered pairs of byte strings.
pub type Contexts = Vec<(Vec<u8>, Vec<u8>)>;

/// Largest id of a [`Tag`].
pub const MAX_TAG: u32 = 0x7f_ffff;

/// Stream id and end flag of a message.
///
/// The id is 23 bits wide; on the wire the 24th bit tells whether more
/// fragments of the stream follow.
#[derive(Clone, Copy, PartialEq, Eq, Debug, Structural)]
pub struct Tag {
    /// This frame ends its stream of fragments.
    pub end: bool,
    /// Identification number of the stream.
    pub id: u32,
}

/// A span of time: whole seconds and the nanoseconds past them.
///
/// `nanos` is below one second in every value that [`Duration::new`] and
/// [`Duration::from_millis`] make.
#[derive(Clone, Copy, PartialEq, Eq, Debug, Structural)]
pub struct Duration {
    pub secs: u64,
    pub nanos: u32,
}

/// A whole mux message.
#[derive(Clone, Debug, PartialEq, Eq)]
pub struct Message {
    /// Identification and termination of the stream.
    pub tag: Tag,
    /// Payload of the message.
    pub frame: MessageFrame,
}

/// The frame kinds of the protocol.
#[derive(Clone, Debug, PartialEq, Eq)]
pub enum MessageFrame {
    Treq(Treq),
    Rreq(Rmsg),
    Tdispatch(Tdispatch),
    Rdispatch(Rdispatch),
    Tinit(Init),
    Rinit(Init),
    Tdrain,
    Rdrain,
    Tping,
    Rping,
    Tdiscarded(Tdiscarded),
    Tlease(Tlease),
    Rerr(Rerr),
}

/// A `Treq` request.
#[derive(Clone, PartialEq, Eq, Debug)]
pub struct Treq {
    /// Request headers.
    pub headers: Headers,
    /// Body of the request.
    pub body: Vec<u8>,
}

/// The reply carried by `Rreq` and `Rdispatch` frames.
#[derive(Clone, PartialEq, Eq, Debug)]
pub enum Rmsg {
    /// Success, with a body.
    Success(Vec<u8>),
    /// Failure, with a description.
    Error(String),
    /// Negative acknowledgment, with a reason.
    Nack(String),
}

/// A `Tdispatch` request.
#[derive(Clone, PartialEq, Eq, Debug)]
pub struct Tdispatch {
    /// Context of the request.
    pub contexts: Contexts,
    /// Destination of the request.
    pub dest: String,
    /// Delegation rules for rewriting the destination.
    pub dtab: Dtab,
    /// Payload.
    pub body: Vec<u8>,
}

/// An `Rdispatch` reply.
#[derive(Clone, PartialEq, Eq, Debug)]
pub struct Rdispatch {
    /// Context of the reply.
    pub contexts: Contexts,
    /// The reply itself.
    pub msg: Rmsg,
}

/// A `Tinit` or `Rinit` frame, which negotiates the protocol version.
#[derive(Clone, PartialEq, Eq, Debug)]
pub struct Init {
    /// Protocol version.
    pub version: u16,
    /// Further negotiation data.
    pub headers: Contexts,
}

/// A `Tdiscarded` frame: the client has abandoned the dispatch with this id.
#[derive(Clone, PartialEq, Eq, Debug)]
pub struct Tdiscarded {
    /// Stream id of the abandoned dispatch.
    pub id: u32,
    /// Why it was abandoned.
    pub msg: String,
}

/// A `Tlease` frame: the peer grants resources for a span of time.
#[derive(Clone, PartialEq, Eq, Debug)]
pub struct Tlease {
    /// How long the lease lasts.
    pub duration: Duration,
}

/// An `Rerr` frame: the server could not act on a request.
#[derive(Clone, PartialEq, Eq, Debug)]
pub struct Rerr {
    /// Description of the error.
    pub msg: String,
}

/// Model of an [`Rmsg`].
pub enum RmsgView {
    Success(Seq<u8>),
    Error(Seq<char>),
    Nack(Seq<char>),
}

/// Model of a [`Treq`].
pub struct TreqView {
    pub headers: Seq<(u8, Seq<u8>)>,
    pub body: Seq<u8>,
}

/// Model of a [`Tdispatch`].
pub struct TdispatchView {
    pub contexts: Seq<(Seq<u8>, Seq<u8>)>,
    pub dest: Seq<char>,
    pub dtab: Seq<DentryView>,
    pub body: Seq<u8>,
}

/// Model of an [`Rdispatch`].
pub struct RdispatchView {
    pub contexts: Seq<(Seq<u8>, Seq<u8>)>,
    pub msg: RmsgView,
}

/// Model of an [`Init`].
pub struct InitView {
    pub version: u16,
    pub headers: Seq<(Seq<u8>, Seq<u8>)>,
}

/// Model of a [`MessageFrame`].
pub enum FrameView {
    Treq(TreqView),
    Rreq(RmsgView),
    Tdispatch(TdispatchView),
    Rdispatch(RdispatchView),
    Tinit(InitView),
    Rinit(InitView),
    Tdrain,
    Rdrain,
    Tping,
    Rping,
    Tdiscarded { id: u32, msg: Seq<char> },
    Tlease(Duration),
    Rerr(Seq<char>),
}

/// Model of a [`Message`].
pub struct MessageView {
    pub tag: Tag,
    pub frame: FrameView,
}

impl View for Rmsg {
    type V = RmsgView;

    open spec fn view(&self) -> RmsgView {
        match self {
            Rmsg::Success(b) => RmsgView::Success(b@),
            Rmsg::Error(s) => RmsgView::Error(s@),
            Rmsg::Nack(s) => RmsgView::Nack(s@),
        }
    }
}

impl View for Treq {
    type V = TreqView;

    open spec fn view(&self) -> TreqView {
        TreqView { headers: self.headers.deep_view(), body: self.body@ }
    }
}

impl View for Tdispatch {
    type V = TdispatchView;

    open spec fn view(&self) -> TdispatchView {
        TdispatchView {
            contexts: self.contexts.deep_view(),
            dest: self.dest@,
            dtab: self.dtab@,
            body: self.body@,
        }
    }
}

impl View for Rdispatch {
    type V = RdispatchView;

    open spec fn view(&self) -> RdispatchView {
        RdispatchView { contexts: self.contexts.deep_view(), msg: self.msg@ }
    }
}

impl View for Init {
    type V = InitView;

    open spec fn view(&self) -> InitView {
        InitView { version: self.version, headers: self.headers.deep_view() }
    }
}

impl View for MessageFrame {
    type V = FrameView;

    open spec fn view(&self) -> FrameView {
        match self {
            MessageFrame::Treq(f) => FrameView::Treq(f@),
            MessageFrame::Rreq(f) => FrameView::Rreq(f@),
            MessageFrame::Tdispatch(f) => FrameView::Tdispatch(f@),
            MessageFrame::Rdispatch(f) => FrameView::Rdispatch(f@),
            MessageFrame::Tinit(f) => FrameView::Tinit(f@),
            MessageFrame::Rinit(f) => FrameView::Rinit(f@),
            MessageFrame::Tdrain => FrameView::Tdrain,
            MessageFrame::Rdrain => FrameView::Rdrain,
            MessageFrame::Tping => FrameView::Tping,
            MessageFrame::Rping => FrameView::Rping,
            MessageFrame::Tdiscarded(f) => FrameView::Tdiscarded { id: f.id, msg: f.msg@ },
            MessageFrame::Tlease(f) => FrameView::Tlease(f.duration),
            MessageFrame::Rerr(f) => FrameView::Rerr(f.msg@),
        }
    }
}

impl View for Message {
    type V = MessageView;

    open spec fn view(&self) -> MessageView {
        MessageView { tag: self.tag, frame: self.frame@ }
    }
}

impl FrameView {
    /// The wire code of this frame's kind.
    pub open spec fn kind(self) -> i8 {
        match self {
            FrameView::Treq(_) => types::TREQ,
            FrameView::Rreq(_) => types::RREQ,
            FrameView::Tdispatch(_) => types::TDISPATCH,
            FrameView::Rdispatch(_) => types::RDISPATCH,
            FrameView::Tinit(_) => types::TINIT,
            FrameView::Rinit(_) => types::RINIT,
            FrameView::Tdrain => types::TDRAIN,
            FrameView::Rdrain => types::RDRAIN,
            FrameView::Tping => types::TPING,
            FrameView::Rping => types::RPING,
            FrameView::Tdiscarded { .. } => types::TDISCARDED,
            FrameView::Tlease(_) => types::TLEASE,
            FrameView::Rerr(_) => types::RERR,
        }
    }
}

impl Duration {
    /// The whole milliseconds of this span.
    pub open spec fn millis(self) -> int {
        self.secs * 1000 + self.nanos / 1_000_000
    }

    /// A span of `secs` seconds and `nanos` nanoseconds; whole seconds in
    /// `nanos` carry over into the seconds.
    pub fn new(secs: u64, nanos: u32) -> (r: Duration)
        requires
            secs + nanos / 1_000_000_000 <= u64::MAX,
        ensures
            r.secs == secs + nanos / 1_000_000_000,
            r.nanos == nanos % 1_000_000_000,
    {
        Duration { secs: secs + (nanos / 1_000_000_000) as u64, nanos: nanos % 1_000_000_000 }
    }

    /// A span of `ms` milliseconds.
    pub open spec fn spec_from_millis(ms: u64) -> Duration {
        Duration { secs: ms / 1000, nanos: ((ms % 1000) * 1_000_000) as u32 }
    }

    /// A span of `ms` milliseconds.
    pub fn from_millis(ms: u64) -> (r: Duration)
        ensures
            r == Duration::spec_from_millis(ms),
            r.secs == ms / 1000,
            r.nanos == (ms % 1000) * 1_000_000,
            r.millis() == ms,
    {
        Duration { secs: ms / 1000, nanos: ((ms % 1000) as u32) * 1_000_000 }
    }

    /// The whole seconds of this span.
    pub fn as_secs(&self) -> (r: u64)
        ensures
            r == self.secs,
    {
        self.secs
    }

    /// The nanoseconds past the whole seconds.
    pub fn subsec_nanos(&self) -> (r: u32)
        ensures
            r == self.nanos,
    {
        self.nanos
    }
}

impl Tag {
    /// A new tag.
    pub fn new(end: bool, id: u32) -> (r: Tag)
        requires
            id <= MAX_TAG,
        ensures
            r == (Tag { end, id }),
    {
        Tag { end, id }
    }
}

impl Message {
    /// A message that ends the stream with id `id`.
    pub fn end(id: u32, frame: MessageFrame) -> (r: Message)
        requires
            id <= MAX_TAG,
        ensures
            r@ == (MessageView { tag: Tag { end: true, id }, frame: frame@ }),
    {
        Message { tag: Tag::new(true, id), frame }
    }
}

impl MessageFrame {
    /// The wire code of this frame's kind.
    pub fn frame_id(&self) -> (r: i8)
        ensures
            r == self@.kind(),
    {
        match self {
            MessageFrame::Treq(_) => types::TREQ,
            MessageFrame::Rreq(_) => types::RREQ,
            MessageFrame::Tdispatch(_) => types::TDISPATCH,
            MessageFrame::Rdispatch(_) => types::RDISPATCH,
            MessageFrame::Tinit(_) => types::TINIT,
            MessageFrame::Rinit(_) => types::RINIT,
            MessageFrame::Tdrain => types::TDRAIN,
            MessageFrame::Rdrain => types::RDRAIN,
            MessageFrame::Tping => types::TPING,
            MessageFrame::Rping => types::RPING,
            MessageFrame::Tdiscarded(_) => types::TDISCARDED,
            MessageFrame::Tlease(_) => types::TLEASE,
            MessageFrame::Rerr(_) => types::RERR,
        }
    }
}

impl Tdispatch {
    /// A dispatch to `dest` with `body`, no contexts and an empty table.
    pub fn new(dest: String, body: Vec<u8>) -> (r: Tdispatch)
        ensures
            r@ == (TdispatchView {
                contexts: Seq::empty(),
                dest: dest@,
                dtab: Seq::empty(),
                body: body@,
            }),
    {
        let contexts: Contexts = Vec::new();
        assert(contexts.deep_view() =~= Seq::empty());
        Tdispatch { contexts, dest, dtab: Dtab::new(), body }
    }
}

} // verus!
