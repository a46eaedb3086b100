//! The decisions of a multiplexed client session.
//!
//! Many callers share one connection. Each request holds a tag; its slot
//! records whether a reply has arrived for it. One caller at a time holds
//! the reader and reads frames from the wire (the leader); the others wait
//! for their slot to be filled (the followers). This module decides every
//! step of that protocol; the caller performs the I/O and the waiting, and
//! hands the outcome back.
use std::collections::HashMap;
use vstd::prelude::*;
use crate::error::{Error, ErrorKind};
use crate::message::{
    Duration, FrameView, Message, MessageFrame, MessageView, Rdispatch, Tag, MAX_TAG,
};

verus! {

broadcast use vstd::std_specs::hash::group_hash_axioms;

/// What a tag's slot holds.
pub enum ReadState {
    /// Reserved: no waiter yet, or the reply the leader left for the waiter.
    Packet(Option<Message>),
    /// A follower waits for this tag.
    Waiting,
    /// The session was aborted before a reply arrived.
    Poisoned(Error),
}

/// Where the session is in its life.
pub enum SessionState {
    /// Requests are accepted.
    Dispatching,
    /// The peer asked to drain: no new tags, the requests in flight finish.
    Draining,
    /// Draining ended with the last tag released.
    Closed,
    /// The session failed; every later request gets this error.
    Error(ErrorKind, String),
}

/// Model of a [`ReadState`].
pub enum SlotView {
    Packet(Option<MessageView>),
    Waiting,
    Poisoned(ErrorKind, Seq<char>),
}

/// Model of a [`SessionState`].
pub enum Lifecycle {
    Dispatching,
    Draining,
    Closed,
    Errored(ErrorKind, Seq<char>),
}

impl View for ReadState {
    type V = SlotView;

    open spec fn view(&self) -> SlotView {
        match self {
            ReadState::Packet(m) => SlotView::Packet(
                match m {
                    Some(m) => Some(m@),
                    None => None,
                },
            ),
            ReadState::Waiting => SlotView::Waiting,
            ReadState::Poisoned(e) => SlotView::Poisoned(e.kind, e.msg@),
        }
    }
}

impl View for SessionState {
    type V = Lifecycle;

    open spec fn view(&self) -> Lifecycle {
        match self {
            SessionState::Dispatching => Lifecycle::Dispatching,
            SessionState::Draining => Lifecycle::Draining,
            SessionState::Closed => Lifecycle::Closed,
            SessionState::Error(k, m) => Lifecycle::Errored(*k, m@),
        }
    }
}

/// Model of a session: the slot of each tag in use, whether the reader is
/// free to be taken, and the lifecycle.
pub struct SessionView {
    pub slots: Map<u32, SlotView>,
    pub reader: bool,
    pub lifecycle: Lifecycle,
}

/// The message or the error a caller gets for its tag.
pub enum Outcome {
    Reply(MessageView),
    Failure(ErrorKind, Seq<char>),
}

/// Model of a follower's step.
pub enum FollowView {
    /// The caller is done with this outcome.
    Done(Outcome),
    /// The caller took the reader and leads.
    Lead,
    /// The caller waits to be woken.
    Wait,
}

/// Model of a leader's step.
pub enum LeadView {
    /// The leader read its own reply.
    Deliver(MessageView),
    /// The session was aborted with this error.
    Fail(ErrorKind, Seq<char>),
    /// The leader reads on.
    Continue,
    /// The leader must send this answer to the peer, then read on. Like
    /// every outbound frame it ends its stream.
    Reply(MessageView),
}

impl SessionView {
    /// New tags may be handed out.
    pub open spec fn accepts(self) -> bool {
        self.lifecycle is Dispatching
    }

    /// The tags whose callers wait to be woken.
    pub open spec fn waiting(self) -> Set<u32> {
        self.slots.dom().filter(|k: u32| self.slots[k] is Waiting)
    }

    /// `id` is the smallest unused id from 2 on.
    pub open spec fn first_free(self, id: u32) -> bool {
        &&& 2 <= id <= MAX_TAG
        &&& !self.slots.contains_key(id)
        &&& forall|j: u32| 2 <= j < id ==> self.slots.contains_key(j)
    }

    /// Every id from 2 to the largest is in use.
    pub open spec fn exhausted(self) -> bool {
        forall|j: u32| 2 <= j <= MAX_TAG ==> self.slots.contains_key(j)
    }

    /// The slot of `id` is freed; a draining session with no tag left closes.
    pub open spec fn release(self, id: u32) -> SessionView {
        let slots = self.slots.remove(id);
        SessionView {
            slots,
            reader: self.reader,
            lifecycle: if self.lifecycle is Draining && slots.dom().is_empty() {
                Lifecycle::Closed
            } else {
                self.lifecycle
            },
        }
    }

    /// Every slot is poisoned with the error, which the session keeps.
    pub open spec fn abort(self, kind: ErrorKind, msg: Seq<char>) -> SessionView {
        SessionView {
            slots: self.slots.map_values(|s: SlotView| SlotView::Poisoned(kind, msg)),
            reader: self.reader,
            lifecycle: Lifecycle::Errored(kind, msg),
        }
    }

    /// An accepting session starts draining; any other stays as it is.
    pub open spec fn drain(self) -> SessionView {
        SessionView {
            lifecycle: if self.lifecycle is Dispatching {
                Lifecycle::Draining
            } else {
                self.lifecycle
            },
            ..self
        }
    }

    /// The same session with the reader given back.
    pub open spec fn with_reader(self) -> SessionView {
        SessionView { reader: true, ..self }
    }

    /// A follower's step for `id`: take the reply or the error its slot
    /// holds, or take the reader when it is free, or else wait.
    pub open spec fn follow(self, id: u32) -> (SessionView, FollowView) {
        match self.slots[id] {
            SlotView::Packet(Some(m)) => (self.release(id), FollowView::Done(Outcome::Reply(m))),
            SlotView::Poisoned(k, msg) => (self.release(id), FollowView::Done(Outcome::Failure(k, msg))),
            _ => if self.reader {
                (
                    SessionView {
                        slots: self.slots.insert(id, SlotView::Packet(None)),
                        reader: false,
                        lifecycle: self.lifecycle,
                    },
                    FollowView::Lead,
                )
            } else {
                (SessionView { slots: self.slots.insert(id, SlotView::Waiting), ..self }, FollowView::Wait)
            },
        }
    }

    /// The leader's step for `id` after reading `incoming` from the wire.
    pub open spec fn lead(self, id: u32, incoming: Outcome) -> (SessionView, LeadView) {
        match incoming {
            Outcome::Failure(k, msg) => (self.abort(k, msg).release(id).with_reader(), LeadView::Fail(k, msg)),
            Outcome::Reply(m) => if m.tag.id == id {
                (self.release(id).with_reader(), LeadView::Deliver(m))
            } else if self.slots.contains_key(m.tag.id) {
                (SessionView { slots: self.slots.insert(m.tag.id, SlotView::Packet(Some(m))), ..self }, LeadView::Continue)
            } else {
                match m.frame {
                    FrameView::Tlease(_) if m.tag.id == 0 => (self, LeadView::Continue),
                    FrameView::Tping => (self, LeadView::Reply(MessageView { tag: Tag { end: true, id: m.tag.id }, frame: FrameView::Rping })),
                    FrameView::Tdrain => (self.drain(), LeadView::Reply(MessageView { tag: Tag { end: true, id: m.tag.id }, frame: FrameView::Rdrain })),
                    _ => (
                        self.abort(ErrorKind::InvalidData, "Unexpected frame"@).release(id).with_reader(),
                        LeadView::Fail(ErrorKind::InvalidData, "Unexpected frame"@),
                    ),
                }
            },
        }
    }
}

/// Whether `e` is the error with which `l` refuses new work.
pub open spec fn refused_with(l: Lifecycle, e: Error) -> bool {
    match l {
        Lifecycle::Dispatching => false,
        Lifecycle::Draining => e.kind == ErrorKind::ConnectionRefused,
        Lifecycle::Closed => e.kind == ErrorKind::BrokenPipe,
        Lifecycle::Errored(k, m) => e.kind == k && e.msg@ == m,
    }
}

/// The model of an outcome.
pub open spec fn outcome_of(r: Result<Message, Error>) -> Outcome {
    match r {
        Ok(m) => Outcome::Reply(m@),
        Err(e) => Outcome::Failure(e.kind, e.msg@),
    }
}

/// `ids` lists each element of `s` once and nothing else.
pub open spec fn lists_exactly(ids: Seq<u32>, s: Set<u32>) -> bool {
    ids.no_duplicates() && ids.to_set() == s
}

/// Every reply that waits in a slot carries that slot's tag id.
pub open spec fn routed(v: SessionView) -> bool {
    forall|k: u32|
        #![trigger v.slots[k]]
        v.slots.contains_key(k) && v.slots[k] is Packet && v.slots[k]->Packet_0 is Some
            ==> v.slots[k]->Packet_0->Some_0.tag.id == k
}

/// No cross-talk between tags: replies are left only in the slot their tag
/// names, a leader delivers only its own tag's reply, and a follower takes
/// only what its own slot holds. So every caller gets the reply sent for
/// its own tag. Every [`SessionReadState`] keeps `routed` as part of its
/// well-formedness, and its `follow_step` and `lead_step` state the same
/// of what they deliver.
pub proof fn lemma_no_cross_talk(v: SessionView, id: u32, incoming: Outcome)
    requires
        routed(v),
        v.slots.contains_key(id),
    ensures
        routed(v.lead(id, incoming).0),
        v.lead(id, incoming).1 is Deliver ==> v.lead(id, incoming).1->Deliver_0.tag.id == id,
        routed(v.follow(id).0),
        v.follow(id).1 matches FollowView::Done(Outcome::Reply(m)) ==> m.tag.id == id,
        routed(SessionView { slots: v.slots.insert(id, SlotView::Packet(None)), ..v }),
{
    let w = v.lead(id, incoming).0;
    assert forall|k: u32| #![trigger w.slots[k]] w.slots.contains_key(k) && w.slots[k] is Packet && w.slots[k]->Packet_0 is Some
        implies w.slots[k]->Packet_0->Some_0.tag.id == k by {
        assert(v.slots.contains_key(k));
    }
    let f = v.follow(id).0;
    assert forall|k: u32| #![trigger f.slots[k]] f.slots.contains_key(k) && f.slots[k] is Packet && f.slots[k]->Packet_0 is Some
        implies f.slots[k]->Packet_0->Some_0.tag.id == k by {
        assert(v.slots.contains_key(k));
    }
    let a = SessionView { slots: v.slots.insert(id, SlotView::Packet(None)), ..v };
    assert forall|k: u32| #![trigger a.slots[k]] a.slots.contains_key(k) && a.slots[k] is Packet && a.slots[k]->Packet_0 is Some
        implies a.slots[k]->Packet_0->Some_0.tag.id == k by {
        assert(v.slots.contains_key(k));
    }
}

/// A tag stays reserved while its reply is outstanding: no step of another
/// caller frees it, and its own follower step frees it only once the caller
/// is done. As `next_id` hands out only ids that are not reserved, no id is
/// handed out twice while a reply for it may still come.
pub proof fn lemma_tags_stay_reserved(v: SessionView, id: u32, k: u32, incoming: Outcome)
    requires
        v.slots.contains_key(id),
        v.slots.contains_key(k),
        k != id,
    ensures
        v.lead(id, incoming).0.slots.contains_key(k),
        v.follow(id).0.slots.contains_key(k),
        !(v.follow(k).1 is Done) ==> v.follow(k).0.slots.contains_key(k),
        !v.first_free(k),
{
}

/// After the peer's drain the session acknowledges it and hands out no new
/// tag, while the requests in flight keep their slots and still get their
/// replies.
pub proof fn lemma_drain(v: SessionView, id: u32, drain: MessageView, k: u32, reply: MessageView)
    requires
        v.accepts(),
        v.slots.contains_key(id),
        drain.frame is Tdrain,
        drain.tag.id != id,
        !v.slots.contains_key(drain.tag.id),
        v.slots.contains_key(k),
        reply.tag.id == k,
    ensures
        v.lead(id, Outcome::Reply(drain)).1 == LeadView::Reply(
            MessageView { tag: Tag { end: true, id: drain.tag.id }, frame: FrameView::Rdrain },
        ),
        !v.lead(id, Outcome::Reply(drain)).0.accepts(),
        v.lead(id, Outcome::Reply(drain)).0.slots == v.slots,
        k == id ==> v.lead(id, Outcome::Reply(drain)).0.lead(id, Outcome::Reply(reply)).1 == LeadView::Deliver(reply),
        k != id ==> v.lead(id, Outcome::Reply(drain)).0.lead(id, Outcome::Reply(reply)).0.slots[k] == SlotView::Packet(Some(reply)),
{
}

/// When the read fails, every request in flight ends with that same error,
/// and the session refuses all later requests with it.
pub proof fn lemma_abort(v: SessionView, id: u32, kind: ErrorKind, msg: Seq<char>, k: u32)
    requires
        v.slots.contains_key(id),
        v.slots.contains_key(k),
        k != id,
    ensures
        v.lead(id, Outcome::Failure(kind, msg)).1 == LeadView::Fail(kind, msg),
        v.lead(id, Outcome::Failure(kind, msg)).0.lifecycle == Lifecycle::Errored(kind, msg),
        !v.lead(id, Outcome::Failure(kind, msg)).0.accepts(),
        v.lead(id, Outcome::Failure(kind, msg)).0.follow(k).1 == FollowView::Done(Outcome::Failure(kind, msg)),
{
    let w = v.lead(id, Outcome::Failure(kind, msg)).0;
    assert(w.slots.contains_key(k));
    assert(w.slots[k] == SlotView::Poisoned(kind, msg));
}

/// A follower's step.
pub enum FollowStep<R> {
    /// The caller is done: its reply, or the error that aborted the session.
    Done(Result<Message, Error>),
    /// The caller took the reader and must lead.
    Lead(R),
    /// The caller must wait to be woken, then step again.
    Wait,
}

/// A leader's step.
pub enum LeadStep {
    /// The leader's own reply.
    Deliver(Message),
    /// The session was aborted with this error.
    Fail(Error),
    /// Read the next frame.
    Continue,
    /// Send this answer to the peer (an `Rping` or an `Rdrain`), then read
    /// the next frame.
    Reply(Message),
}

impl<R> FollowStep<R> {
    pub open spec fn view(&self) -> FollowView {
        match self {
            FollowStep::Done(r) => FollowView::Done(outcome_of(*r)),
            FollowStep::Lead(_) => FollowView::Lead,
            FollowStep::Wait => FollowView::Wait,
        }
    }
}

impl View for LeadStep {
    type V = LeadView;

    open spec fn view(&self) -> LeadView {
        match self {
            LeadStep::Deliver(m) => LeadView::Deliver(m@),
            LeadStep::Fail(e) => LeadView::Fail(e.kind, e.msg@),
            LeadStep::Continue => LeadView::Continue,
            LeadStep::Reply(m) => LeadView::Reply(m@),
        }
    }
}

impl SessionState {
    /// Whether the session is draining.
    pub fn is_draining(&self) -> (r: bool)
        ensures
            r == (self@ is Draining),
    {
        match self {
            SessionState::Draining => true,
            _ => false,
        }
    }
}

/// The callers to wake after a leader's step: after an abort every waiting
/// one; after a reply is left in a waiting slot that one; after the leader
/// read its own reply exactly one waiting caller, if any waits, to lead next.
pub open spec fn lead_wakes(v: SessionView, id: u32, incoming: Outcome, wake: Seq<u32>) -> bool {
    match v.lead(id, incoming).1 {
        LeadView::Fail(_, _) => lists_exactly(wake, v.waiting()),
        LeadView::Deliver(_) => wake.len() <= 1 && (wake.len() == 1 ==> v.waiting().contains(wake[0]))
            && (!v.waiting().is_empty() ==> wake.len() == 1),
        LeadView::Continue => match incoming {
            Outcome::Reply(m) => if m.tag.id != id && v.slots.contains_key(m.tag.id) && v.slots[m.tag.id] is Waiting {
                wake == seq![m.tag.id]
            } else {
                wake.len() == 0
            },
            _ => wake.len() == 0,
        },
        LeadView::Reply(_) => wake.len() == 0,
    }
}

/// The shared state of a session: the slot of each tag in use, the reader
/// when no caller leads, and the lifecycle.
pub struct SessionReadState<R> {
    channel_states: HashMap<u32, ReadState>,
    ids: Vec<u32>,
    read: Option<R>,
    state: SessionState,
}

impl<R> View for SessionReadState<R> {
    type V = SessionView;

    closed spec fn view(&self) -> SessionView {
        SessionView {
            slots: self.channel_states@.map_values(|s: ReadState| s@),
            reader: self.read is Some,
            lifecycle: self.state@,
        }
    }
}

proof fn lemma_push_contains(s: Seq<u32>, k: u32, x: u32)
    ensures
        s.push(k).contains(x) <==> (s.contains(x) || x == k),
{
    if s.contains(x) {
        let a = choose|a: int| 0 <= a < s.len() && s[a] == x;
        assert(s.push(k)[a] == x);
    }
    if x == k {
        assert(s.push(k)[s.len() as int] == k);
    }
    if s.push(k).contains(x) {
        let a = choose|a: int| 0 <= a < s.len() + 1 && s.push(k)[a] == x;
        if a < s.len() {
            assert(s[a] == x);
        }
    }
}

proof fn lemma_remove_unique(s: Seq<u32>, j: int)
    requires
        s.no_duplicates(),
        0 <= j < s.len(),
    ensures
        s.remove(j).no_duplicates(),
        s.remove(j).to_set() == s.to_set().remove(s[j]),
{
    let r = s.remove(j);
    assert forall|a: int, b: int| 0 <= a < b < r.len() implies r[a] != r[b] by {
        let a2 = if a < j { a } else { a + 1 };
        let b2 = if b < j { b } else { b + 1 };
        assert(r[a] == s[a2] && r[b] == s[b2]);
    }
    assert forall|x: u32| r.to_set().contains(x) <==> s.to_set().remove(s[j]).contains(x) by {
        if r.contains(x) {
            let a = choose|a: int| 0 <= a < r.len() && r[a] == x;
            let a2 = if a < j { a } else { a + 1 };
            assert(s[a2] == x);
            assert(s.contains(x));
        }
        if s.contains(x) && x != s[j] {
            let a = choose|a: int| 0 <= a < s.len() && s[a] == x;
            assert(a != j);
            let a2 = if a < j { a } else { a - 1 };
            assert(r[a2] == x);
            assert(r.contains(x));
        }
    }
    assert(r.to_set() =~= s.to_set().remove(s[j]));
}

impl<R> SessionReadState<R> {
    /// The id list and the slot map agree, and every reply that waits in
    /// a slot carries that slot's tag id.
    pub closed spec fn wf(&self) -> bool {
        &&& lists_exactly(self.ids@, self.channel_states@.dom())
        &&& routed(self@)
    }

    /// A new session that reads with `read`: no tag in use, accepting requests.
    pub fn new(read: R) -> (r: Self)
        ensures
            r.wf(),
            r@.slots == Map::<u32, SlotView>::empty(),
            r@.reader,
            r@.lifecycle is Dispatching,
    {
        let r = SessionReadState {
            channel_states: HashMap::new(),
            ids: Vec::new(),
            read: Some(read),
            state: SessionState::Dispatching,
        };
        assert(r.ids@.to_set() =~= Set::<u32>::empty());
        assert(r@.slots =~= Map::<u32, SlotView>::empty());
        r
    }

    /// Whether new requests are accepted, or the error that refuses them.
    pub fn check_ok(&self) -> (r: Result<(), Error>)
        ensures
            match r {
                Ok(_) => self@.accepts(),
                Err(e) => !self@.accepts() && refused_with(self@.lifecycle, e),
            },
    {
        match &self.state {
            SessionState::Dispatching => Ok(()),
            SessionState::Error(k, m) => Err(Error { kind: *k, msg: m.clone() }),
            SessionState::Draining => Err(Error::new(ErrorKind::ConnectionRefused, "Draining")),
            SessionState::Closed => Err(Error::new(ErrorKind::BrokenPipe, "Connection closed")),
        }
    }

    /// Allocates the smallest unused id from 2 on and reserves its slot.
    /// Fails while the session does not accept requests, and when every id
    /// is in use.
    pub fn next_id(&mut self) -> (r: Result<u32, Error>)
        requires
            old(self).wf(),
        ensures
            final(self).wf(),
            match r {
                Ok(id) => old(self)@.accepts() && old(self)@.first_free(id) && final(self)@ == (SessionView {
                    slots: old(self)@.slots.insert(id, SlotView::Packet(None)),
                    ..old(self)@
                }),
                Err(e) => final(self)@ == old(self)@ && ((!old(self)@.accepts() && refused_with(old(self)@.lifecycle, e))
                    || (old(self)@.accepts() && old(self)@.exhausted() && e.kind == ErrorKind::Exhausted)),
            },
    {
        match self.check_ok() {
            Err(e) => return Err(e),
            Ok(_) => {},
        }
        let mut i: u32 = 2;
        while i <= MAX_TAG
            invariant
                2 <= i <= MAX_TAG + 1,
                self.wf(),
                self@ == old(self)@,
                old(self)@.accepts(),
                forall|j: u32| 2 <= j < i ==> self@.slots.contains_key(j),
            decreases MAX_TAG + 1 - i,
        {
            if !self.channel_states.contains_key(&i) {
                let ghost before = self.channel_states@;
                let ghost ids0 = self.ids@;
                assert(!before.dom().contains(i));
                assert(!ids0.to_set().contains(i));
                self.channel_states.insert(i, ReadState::Packet(None));
                self.ids.push(i);
                proof {
                    assert(self.ids@ == ids0.push(i));
                    assert forall|a: int, b: int| 0 <= a < b < self.ids@.len() implies self.ids@[a] != self.ids@[b] by {
                        if b == ids0.len() {
                            assert(ids0.contains(ids0[a]));
                        }
                    }
                    assert forall|x: u32| self.ids@.contains(x) <==> (ids0.contains(x) || x == i) by {
                        lemma_push_contains(ids0, i, x);
                    }
                    assert(self.ids@.to_set() =~= self.channel_states@.dom());
                    assert(self@.slots =~= old(self)@.slots.insert(i, SlotView::Packet(None)));
                }
                return Ok(i);
            }
            i += 1;
        }
        Err(Error::new(ErrorKind::Exhausted, "No free tag id"))
    }

    /// Frees the slot of `id`; a draining session with no tag left closes.
    pub fn release_id(&mut self, id: u32)
        requires
            old(self).wf(),
        ensures
            final(self).wf(),
            final(self)@ == old(self)@.release(id),
    {
        let mut j: usize = 0;
        while j < self.ids.len() && self.ids[j] != id
            invariant
                j <= self.ids.len(),
                self.ids@ == old(self).ids@,
                forall|k: int| 0 <= k < j ==> self.ids@[k] != id,
            decreases self.ids.len() - j,
        {
            j += 1;
        }
        if j < self.ids.len() {
            proof {
                lemma_remove_unique(self.ids@, j as int);
            }
            self.ids.remove(j);
        } else {
            assert(!self.ids@.contains(id));
        }
        self.channel_states.remove(&id);
        if self.state.is_draining() && self.ids.len() == 0 {
            self.state = SessionState::Closed;
        }
        proof {
            assert(self.ids@.to_set() =~= self.channel_states@.dom());
            assert(self@.slots =~= old(self)@.slots.remove(id));
            if self.ids@.len() == 0 {
                assert(self@.slots.dom() =~= Set::<u32>::empty());
            } else {
                assert(self@.slots.dom().contains(self.ids@[0]));
            }
        }
    }

    /// Starts draining an accepting session: no new tag will be handed out.
    pub fn drain(&mut self)
        requires
            old(self).wf(),
        ensures
            final(self).wf(),
            final(self)@ == old(self)@.drain(),
    {
        if let SessionState::Dispatching = self.state {
            self.state = SessionState::Draining;
        }
    }

    /// Aborts the session: it keeps the error, and every slot is poisoned
    /// with it. Returns the tags whose callers wait and must be woken.
    pub fn abort_session(&mut self, reason: ErrorKind, msg: &str) -> (wake: Vec<u32>)
        requires
            old(self).wf(),
        ensures
            final(self).wf(),
            final(self)@ == old(self)@.abort(reason, msg@),
            lists_exactly(wake@, old(self)@.waiting()),
    {
        let ghost m0 = self.channel_states@;
        self.state = SessionState::Error(reason, msg.to_owned());
        let mut wake: Vec<u32> = Vec::new();
        let mut i: usize = 0;
        while i < self.ids.len()
            invariant
                i <= self.ids.len(),
                self.ids@ == old(self).ids@,
                self.read == old(self).read,
                self.state@ == Lifecycle::Errored(reason, msg@),
                lists_exactly(self.ids@, m0.dom()),
                self.channel_states@.dom() == m0.dom(),
                forall|j: int| 0 <= j < i ==> #[trigger] self.channel_states@[self.ids@[j]]@ == SlotView::Poisoned(reason, msg@),
                forall|k: u32| m0.dom().contains(k) && !self.ids@.take(i as int).contains(k) ==> #[trigger] self.channel_states@[k] == m0[k],
                wake@.no_duplicates(),
                forall|k: u32| wake@.contains(k) <==> (self.ids@.take(i as int).contains(k) && m0[k]@ is Waiting),
            decreases self.ids.len() - i,
        {
            let k = self.ids[i];
            let ghost before = self.channel_states@;
            let prev = self.channel_states.insert(k, ReadState::Poisoned(Error::new(reason, msg)));
            proof {
                assert(self.ids@.take(i + 1) =~= self.ids@.take(i as int).push(k));
                assert(!self.ids@.take(i as int).contains(k)) by {
                    if self.ids@.take(i as int).contains(k) {
                        let a = choose|a: int| 0 <= a < i && self.ids@[a] == k;
                        assert(self.ids@[a] == self.ids@[i as int]);
                    }
                }
                assert(self.channel_states@.dom() =~= m0.dom());
                assert forall|j: int| 0 <= j < i + 1 implies #[trigger] self.channel_states@[self.ids@[j]]@ == SlotView::Poisoned(reason, msg@) by {
                    if j < i {
                        assert(before[self.ids@[j]]@ == SlotView::Poisoned(reason, msg@));
                    }
                }
            }
            let was_waiting = match prev {
                Some(ReadState::Waiting) => true,
                _ => false,
            };
            let ghost wake0 = wake@;
            if was_waiting {
                wake.push(k);
            }
            proof {
                assert(prev == Some(m0[k]));
                assert(was_waiting == (m0[k]@ is Waiting));
                assert(!wake0.contains(k));
                if was_waiting {
                    assert(wake@ == wake0.push(k));
                    assert forall|a: int, b: int| 0 <= a < b < wake@.len() implies wake@[a] != wake@[b] by {
                        if b == wake0.len() {
                            assert(wake0.contains(wake0[a]));
                        }
                    }
                } else {
                    assert(wake@ == wake0);
                }
                assert forall|x: u32| wake@.contains(x) <==> (self.ids@.take(i + 1).contains(x) && m0[x]@ is Waiting) by {
                    lemma_push_contains(self.ids@.take(i as int), k, x);
                    lemma_push_contains(wake0, k, x);
                    if x == k {
                        assert(self.ids@.take(i + 1).contains(k));
                    } else {
                        assert(self.ids@.take(i + 1).contains(x) <==> self.ids@.take(i as int).contains(x));
                    }
                }
                assert forall|x: u32| m0.dom().contains(x) && !self.ids@.take(i + 1).contains(x) implies #[trigger] self.channel_states@[x] == m0[x] by {
                    lemma_push_contains(self.ids@.take(i as int), k, x);
                    assert(x != k);
                    assert(!self.ids@.take(i as int).contains(x));
                }
            }
            i += 1;
        }
        proof {
            assert(self.ids@.take(i as int) =~= self.ids@);
            assert forall|k: u32| #[trigger] self@.slots.contains_key(k) implies self@.slots[k] == SlotView::Poisoned(reason, msg@) by {
                assert(self.ids@.to_set().contains(k));
                let j = choose|j: int| 0 <= j < self.ids@.len() && self.ids@[j] == k;
                assert(self.channel_states@[self.ids@[j]]@ == SlotView::Poisoned(reason, msg@));
            }
            assert(self@.slots =~= old(self)@.abort(reason, msg@).slots);
            assert(wake@.to_set() =~= old(self)@.waiting());
            assert(self@ == old(self)@.abort(reason, msg@));
        }
        wake
    }

    /// One waiting caller, if any waits: the one to lead next.
    fn elect_leader(&self) -> (r: Vec<u32>)
        requires
            self.wf(),
        ensures
            r@.len() <= 1,
            r@.len() == 1 ==> self@.waiting().contains(r@[0]),
            !self@.waiting().is_empty() ==> r@.len() == 1,
    {
        let mut i: usize = 0;
        while i < self.ids.len()
            invariant
                i <= self.ids.len(),
                self.wf(),
                forall|j: int| 0 <= j < i ==> !(#[trigger] self@.slots[self.ids@[j]] is Waiting),
            decreases self.ids.len() - i,
        {
            let k = self.ids[i];
            assert(self.ids@.to_set().contains(k));
            if let Some(ReadState::Waiting) = self.channel_states.get(&k) {
                let mut r: Vec<u32> = Vec::new();
                r.push(k);
                return r;
            }
            i += 1;
        }
        proof {
            if !self@.waiting().is_empty() {
                let k = self@.waiting().choose();
                assert(self@.waiting().contains(k));
                assert(self.ids@.to_set().contains(k));
                let j = choose|j: int| 0 <= j < self.ids@.len() && self.ids@[j] == k;
                assert(!(self@.slots[self.ids@[j]] is Waiting));
            }
        }
        Vec::new()
    }

    /// A follower's step for `id`: take the reply or the error its slot
    /// holds and free the slot; or take the reader when it is free; or else
    /// register as waiting.
    pub fn follow_step(&mut self, id: u32) -> (r: FollowStep<R>)
        requires
            old(self).wf(),
            old(self)@.slots.contains_key(id),
        ensures
            final(self).wf(),
            (final(self)@, r.view()) == old(self)@.follow(id),
            r matches FollowStep::Done(Ok(m)) ==> m.tag.id == id,
    {
        let prev = self.channel_states.insert(id, ReadState::Packet(None));
        proof {
            assert(self.ids@.to_set() =~= self.channel_states@.dom());
            assert(self@.slots =~= old(self)@.slots.insert(id, SlotView::Packet(None)));
            assert forall|k: u32|
                #![trigger self@.slots[k]]
                self@.slots.contains_key(k) && self@.slots[k] is Packet && self@.slots[k]->Packet_0 is Some
                    implies self@.slots[k]->Packet_0->Some_0.tag.id == k by {
                assert(old(self)@.slots.contains_key(k));
            }
        }
        match prev {
            Some(ReadState::Packet(Some(m))) => {
                self.release_id(id);
                proof {
                    assert(self@ == old(self)@.release(id)) by {
                        assert(old(self)@.slots.remove(id) =~= self@.slots);
                    }
                }
                FollowStep::Done(Ok(m))
            },
            Some(ReadState::Poisoned(e)) => {
                self.release_id(id);
                proof {
                    assert(old(self)@.slots.remove(id) =~= self@.slots);
                }
                FollowStep::Done(Err(e))
            },
            _ => {
                if self.read.is_some() {
                    let reader = self.read.take();
                    proof {
                        assert(self@.slots =~= old(self)@.slots.insert(id, SlotView::Packet(None)));
                    }
                    match reader {
                        Some(rd) => FollowStep::Lead(rd),
                        None => FollowStep::Wait,
                    }
                } else {
                    self.channel_states.insert(id, ReadState::Waiting);
                    proof {
                        assert(self.ids@.to_set() =~= self.channel_states@.dom());
                        assert(self@.slots =~= old(self)@.slots.insert(id, SlotView::Waiting));
                    }
                    FollowStep::Wait
                }
            },
        }
    }

    /// The leader's step for `id` after reading `incoming` from the wire.
    ///
    /// A read error aborts the session; the leader's own reply is delivered
    /// and the reader given back; a reply for another tag in use is left in
    /// its slot; a lease for the session is ignored, a ping is to be
    /// answered with an `Rping`, a drain starts draining and is to be
    /// acknowledged with an `Rdrain`; any other frame aborts the session
    /// as unexpected. Returns the step, the tags whose callers must be woken,
    /// and the reader while the leader keeps reading.
    pub fn lead_step(&mut self, id: u32, incoming: Result<Message, Error>, reader: R) -> (r: (
        LeadStep,
        Vec<u32>,
        Option<R>,
    ))
        requires
            old(self).wf(),
            !old(self)@.reader,
            old(self)@.slots.contains_key(id),
        ensures
            final(self).wf(),
            (final(self)@, r.0@) == old(self)@.lead(id, outcome_of(incoming)),
            r.0 matches LeadStep::Deliver(m) ==> m.tag.id == id,
            lead_wakes(old(self)@, id, outcome_of(incoming), r.1@),
            r.2 is Some <==> (r.0 is Continue || r.0 is Reply),
    {
        match incoming {
            Err(e) => {
                let wake = self.abort_session(e.kind, e.msg.as_str());
                self.release_id(id);
                self.read = Some(reader);
                (LeadStep::Fail(e), wake, None)
            },
            Ok(msg) => {
                let mid = msg.tag.id;
                if mid == id {
                    let wake = self.elect_leader();
                    self.release_id(id);
                    self.read = Some(reader);
                    (LeadStep::Deliver(msg), wake, None)
                } else if self.channel_states.contains_key(&mid) {
                    let ghost mv = msg@;
                    let prev = self.channel_states.insert(mid, ReadState::Packet(Some(msg)));
                    let mut wake: Vec<u32> = Vec::new();
                    if let Some(ReadState::Waiting) = prev {
                        wake.push(mid);
                    }
                    proof {
                        assert(self.ids@.to_set() =~= self.channel_states@.dom());
                        assert(self@.slots =~= old(self)@.slots.insert(mid, SlotView::Packet(Some(mv))));
                        assert(wake@ =~= seq![mid] || wake@.len() == 0);
                    }
                    (LeadStep::Continue, wake, Some(reader))
                } else {
                    match msg.frame {
                        MessageFrame::Tlease(_) if mid == 0 => (LeadStep::Continue, Vec::new(), Some(reader)),
                        MessageFrame::Tping => {
                            let pong = Message { tag: Tag { end: true, id: mid }, frame: MessageFrame::Rping };
                            (LeadStep::Reply(pong), Vec::new(), Some(reader))
                        },
                        MessageFrame::Tdrain => {
                            self.drain();
                            let ack = Message { tag: Tag { end: true, id: mid }, frame: MessageFrame::Rdrain };
                            (LeadStep::Reply(ack), Vec::new(), Some(reader))
                        },
                        _ => {
                            let wake = self.abort_session(ErrorKind::InvalidData, "Unexpected frame");
                            self.release_id(id);
                            self.read = Some(reader);
                            (LeadStep::Fail(Error::new(ErrorKind::InvalidData, "Unexpected frame")), wake, None)
                        },
                    }
                }
            },
        }
    }

    /// What a dispatch gets from its reply: an `Rdispatch` is the result,
    /// an `Rerr` an error of kind `Other` with its message; any other frame
    /// aborts the session as unexpected. Also returns the tags to wake.
    pub fn dispatch_result(&mut self, msg: Message) -> (r: (Result<Rdispatch, Error>, Vec<u32>))
        requires
            old(self).wf(),
        ensures
            final(self).wf(),
            match msg@.frame {
                FrameView::Rdispatch(d) => r.0 is Ok && r.0->Ok_0@ == d && final(self)@ == old(self)@
                    && r.1@.len() == 0,
                FrameView::Rerr(m) => r.0 is Err && r.0->Err_0.kind == ErrorKind::Other
                    && r.0->Err_0.msg@ == m && final(self)@ == old(self)@ && r.1@.len() == 0,
                _ => r.0 is Err && r.0->Err_0.kind == ErrorKind::InvalidData
                    && final(self)@ == old(self)@.abort(ErrorKind::InvalidData, "Unexpected frame"@)
                    && lists_exactly(r.1@, old(self)@.waiting()),
            },
    {
        match msg.frame {
            MessageFrame::Rdispatch(d) => (Ok(d), Vec::new()),
            MessageFrame::Rerr(e) => (Err(Error { kind: ErrorKind::Other, msg: e.msg }), Vec::new()),
            _ => {
                let wake = self.abort_session(ErrorKind::InvalidData, "Unexpected frame");
                (Err(Error::new(ErrorKind::InvalidData, "Unexpected frame")), wake)
            },
        }
    }

    /// What a ping gets from its reply: an `Rping` gives the time between
    /// the two clock readings, in whole milliseconds; any other frame aborts
    /// the session as unexpected. Also returns the tags to wake.
    pub fn ping_result(&mut self, msg: Message, start_ns: u64, end_ns: u64) -> (r: (
        Result<Duration, Error>,
        Vec<u32>,
    ))
        requires
            old(self).wf(),
            start_ns <= end_ns,
        ensures
            final(self).wf(),
            match msg@.frame {
                FrameView::Rping => r.0 is Ok && r.0->Ok_0 == Duration::spec_from_millis(
                    ((end_ns - start_ns) / 1_000_000) as u64,
                ) && final(self)@ == old(self)@ && r.1@.len() == 0,
                _ => r.0 is Err && r.0->Err_0.kind == ErrorKind::InvalidData
                    && final(self)@ == old(self)@.abort(ErrorKind::InvalidData, "Unexpected frame"@)
                    && lists_exactly(r.1@, old(self)@.waiting()),
            },
    {
        match msg.frame {
            MessageFrame::Rping => (Ok(Duration::from_millis((end_ns - start_ns) / 1_000_000)), Vec::new()),
            _ => {
                let wake = self.abort_session(ErrorKind::InvalidData, "Unexpected frame");
                (Err(Error::new(ErrorKind::InvalidData, "Unexpected frame")), wake)
            },
        }
    }
}

} // verus!
