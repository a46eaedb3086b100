use mux::session::{FollowStep, LeadStep, SessionReadState};
use mux::{Duration, Error, ErrorKind, Message, MessageFrame, Rdispatch, Rmsg, Tag, Tlease};

fn reply(id: u32, body: &[u8]) -> Message {
    Message {
        tag: Tag::new(true, id),
        frame: MessageFrame::Rdispatch(Rdispatch { contexts: vec![], msg: Rmsg::Success(body.to_vec()) }),
    }
}

fn lead(s: &mut SessionReadState<()>, id: u32) {
    match s.follow_step(id) {
        FollowStep::Lead(()) => {},
        _ => panic!("expected to lead"),
    }
}

#[test]
fn lib_it_works() {
    let s: SessionReadState<()> = SessionReadState::new(());
    assert!(s.check_ok().is_ok());
}

#[test]
fn test_dispatch_success() {
    let mut s = SessionReadState::new(());
    let id = s.next_id().unwrap();
    assert_eq!(id, 2);
    lead(&mut s, id);
    let (step, wake, reader) = s.lead_step(id, Ok(reply(id, b"hi")), ());
    assert!(wake.is_empty());
    assert!(reader.is_none());
    let msg = match step {
        LeadStep::Deliver(m) => m,
        _ => panic!("expected the reply"),
    };
    let (result, wake) = s.dispatch_result(msg);
    assert!(wake.is_empty());
    assert_eq!(result.unwrap().msg, Rmsg::Success(b"hi".to_vec()));
    // the tag was released: the next request gets the same id again
    assert_eq!(s.next_id().unwrap(), 2);
}

#[test]
fn replies_reach_their_own_caller() {
    let mut s = SessionReadState::new(());
    let a = s.next_id().unwrap();
    let b = s.next_id().unwrap();
    assert_eq!((a, b), (2, 3));
    lead(&mut s, a);
    match s.follow_step(b) {
        FollowStep::Wait => {},
        _ => panic!("the reader is taken: the second caller waits"),
    }
    // the reply for b arrives first: it is left in b's slot and b is woken
    let (step, wake, reader) = s.lead_step(a, Ok(reply(b, b"body b")), ());
    assert!(matches!(step, LeadStep::Continue));
    assert_eq!(wake, vec![b]);
    assert!(reader.is_some());
    let (step, wake, _) = s.lead_step(a, Ok(reply(a, b"body a")), ());
    assert!(wake.is_empty());
    match step {
        LeadStep::Deliver(m) => assert_eq!(m, reply(a, b"body a")),
        _ => panic!("expected a's reply"),
    }
    match s.follow_step(b) {
        FollowStep::Done(Ok(m)) => assert_eq!(m, reply(b, b"body b")),
        _ => panic!("expected b's reply"),
    }
}

#[test]
fn leader_hands_over_to_a_waiting_caller() {
    let mut s = SessionReadState::new(());
    let a = s.next_id().unwrap();
    let b = s.next_id().unwrap();
    lead(&mut s, a);
    assert!(matches!(s.follow_step(b), FollowStep::Wait));
    let (step, wake, _) = s.lead_step(a, Ok(reply(a, b"x")), ());
    assert!(matches!(step, LeadStep::Deliver(_)));
    assert_eq!(wake, vec![b]);
    // b wakes up and finds the reader free
    lead(&mut s, b);
}

#[test]
fn tag_ids_are_not_reused_while_outstanding() {
    let mut s = SessionReadState::new(());
    let a = s.next_id().unwrap();
    let b = s.next_id().unwrap();
    let c = s.next_id().unwrap();
    assert_eq!((a, b, c), (2, 3, 4));
    s.release_id(b);
    assert_eq!(s.next_id().unwrap(), 3);
    assert_eq!(s.next_id().unwrap(), 5);
}

#[test]
fn drain_refuses_new_requests_and_finishes_old_ones() {
    let mut s = SessionReadState::new(());
    let a = s.next_id().unwrap();
    lead(&mut s, a);
    let drain = Message { tag: Tag::new(true, 0), frame: MessageFrame::Tdrain };
    let (step, _, reader) = s.lead_step(a, Ok(drain), ());
    match step {
        LeadStep::Reply(m) => assert_eq!(m, Message { tag: Tag::new(true, 0), frame: MessageFrame::Rdrain }),
        _ => panic!("expected the drain to be acknowledged"),
    }
    assert!(reader.is_some());
    assert_eq!(s.next_id().unwrap_err().kind, ErrorKind::ConnectionRefused);
    let (step, _, _) = s.lead_step(a, Ok(reply(a, b"late")), ());
    assert!(matches!(step, LeadStep::Deliver(_)));
    // the last tag is gone: the session is closed
    assert_eq!(s.check_ok().unwrap_err().kind, ErrorKind::BrokenPipe);
}

#[test]
fn read_failure_reaches_every_caller() {
    let mut s = SessionReadState::new(());
    let a = s.next_id().unwrap();
    let b = s.next_id().unwrap();
    lead(&mut s, a);
    assert!(matches!(s.follow_step(b), FollowStep::Wait));
    let err = Error::new(ErrorKind::UnexpectedEof, "peer closed");
    let (step, wake, reader) = s.lead_step(a, Err(err), ());
    assert!(reader.is_none());
    assert_eq!(wake, vec![b]);
    match step {
        LeadStep::Fail(e) => assert_eq!((e.kind, e.msg.as_str()), (ErrorKind::UnexpectedEof, "peer closed")),
        _ => panic!("expected the failure"),
    }
    match s.follow_step(b) {
        FollowStep::Done(Err(e)) => assert_eq!((e.kind, e.msg.as_str()), (ErrorKind::UnexpectedEof, "peer closed")),
        _ => panic!("expected the same failure"),
    }
    let later = s.next_id().unwrap_err();
    assert_eq!((later.kind, later.msg.as_str()), (ErrorKind::UnexpectedEof, "peer closed"));
}

#[test]
fn unexpected_frame_aborts() {
    let mut s = SessionReadState::new(());
    let a = s.next_id().unwrap();
    lead(&mut s, a);
    let stray = Message { tag: Tag::new(true, 77), frame: MessageFrame::Rping };
    let (step, _, _) = s.lead_step(a, Ok(stray), ());
    match step {
        LeadStep::Fail(e) => assert_eq!(e.kind, ErrorKind::InvalidData),
        _ => panic!("expected an abort"),
    }
    assert_eq!(s.check_ok().unwrap_err().kind, ErrorKind::InvalidData);
}

#[test]
fn peer_ping_is_answered_and_lease_ignored() {
    let mut s = SessionReadState::new(());
    let a = s.next_id().unwrap();
    lead(&mut s, a);
    let ping = Message { tag: Tag::new(true, 9), frame: MessageFrame::Tping };
    let (step, wake, reader) = s.lead_step(a, Ok(ping), ());
    assert!(wake.is_empty() && reader.is_some());
    match step {
        LeadStep::Reply(m) => assert_eq!(m, Message { tag: Tag::new(true, 9), frame: MessageFrame::Rping }),
        _ => panic!("expected a ping reply"),
    }
    // a ping that does not end its stream is still answered with an ending tag
    let open_ping = Message { tag: Tag { end: false, id: 11 }, frame: MessageFrame::Tping };
    let (step, _, _) = s.lead_step(a, Ok(open_ping), ());
    match step {
        LeadStep::Reply(m) => assert_eq!(m, Message { tag: Tag::new(true, 11), frame: MessageFrame::Rping }),
        _ => panic!("expected a ping reply"),
    }
    let lease = Message {
        tag: Tag::new(true, 0),
        frame: MessageFrame::Tlease(Tlease { duration: Duration::from_millis(5) }),
    };
    let (step, _, _) = s.lead_step(a, Ok(lease), ());
    assert!(matches!(step, LeadStep::Continue));
    assert!(s.check_ok().is_ok());
}

#[test]
fn ping_measures_elapsed_milliseconds() {
    let mut s = SessionReadState::new(());
    let rping = Message { tag: Tag::new(true, 2), frame: MessageFrame::Rping };
    let (result, wake) = s.ping_result(rping, 1_000_000, 43_500_000);
    assert!(wake.is_empty());
    assert_eq!(result.unwrap(), Duration::from_millis(42));
    let wrong = reply(2, b"x");
    let (result, _) = s.ping_result(wrong, 0, 0);
    assert_eq!(result.unwrap_err().kind, ErrorKind::InvalidData);
}

#[test]
fn rerr_reply_is_an_error_but_not_fatal() {
    let mut s: SessionReadState<()> = SessionReadState::new(());
    let rerr = Message { tag: Tag::new(true, 2), frame: MessageFrame::Rerr(mux::Rerr { msg: "nope".to_owned() }) };
    let (result, _) = s.dispatch_result(rerr);
    let e = result.unwrap_err();
    assert_eq!((e.kind, e.msg.as_str()), (ErrorKind::Other, "nope"));
    assert!(s.check_ok().is_ok());
}
