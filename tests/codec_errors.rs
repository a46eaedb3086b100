use mux::codec;
use mux::codec::size::{context_size, dtab_size, frame_size, init_size, rdispatch_size, rmsg_size, tdispatch_size, treq_size};
use mux::types;
use mux::{Dentry, Dtab, Duration, ErrorKind, Init, Message, MessageFrame, Rdispatch, Rmsg, Tag, Tdiscarded, Tdispatch, Treq};

#[test]
fn ping_frame_on_the_wire() {
    let mut w = Vec::new();
    codec::write_message(&mut w, &Message { tag: Tag::new(true, 2), frame: MessageFrame::Tping }).unwrap();
    assert_eq!(w, vec![0, 0, 0, 4, 65, 0, 0, 2]);
    let mut w = Vec::new();
    codec::write_message(&mut w, &Message { tag: Tag::new(true, 2), frame: MessageFrame::Rping }).unwrap();
    assert_eq!(w, vec![0, 0, 0, 4, (-65i8) as u8, 0, 0, 2]);
    let (m, used) = codec::read_message(&w).unwrap();
    assert_eq!(used, 8);
    assert_eq!(m.frame, MessageFrame::Rping);
}

#[test]
fn encode_message_has_no_length() {
    let mut w = Vec::new();
    codec::encode_message(&mut w, &Message { tag: Tag::new(true, 1), frame: MessageFrame::Tping }).unwrap();
    assert_eq!(w, vec![65, 0, 0, 1]);
    let m = codec::decode_message(&w).unwrap();
    assert_eq!(m.frame, MessageFrame::Tping);
}

#[test]
fn tag_end_flag_is_the_complemented_top_bit() {
    let mut w = Vec::new();
    codec::encode_tag(&mut w, &Tag::new(false, 0x7f_ffff));
    assert_eq!(w, vec![0xff, 0xff, 0xff]);
    let mut w = Vec::new();
    codec::encode_tag(&mut w, &Tag::new(true, 0x12_3456));
    assert_eq!(w, vec![0x12, 0x34, 0x56]);
    let (t, end) = codec::decode_tag(&[0x80, 0, 5], 0).unwrap();
    assert_eq!((t, end), (Tag { end: false, id: 5 }, 3));
    assert_eq!(codec::decode_tag(&[1, 2], 0).unwrap_err().kind, ErrorKind::UnexpectedEof);
}

#[test]
fn unknown_frame_kind_is_invalid_input() {
    assert_eq!(codec::decode_frame(3, &[]).unwrap_err().kind, ErrorKind::InvalidInput);
    assert_eq!(codec::decode_frame(types::TPING, &[]).unwrap(), MessageFrame::Tping);
}

#[test]
fn empty_frame_with_bytes_is_invalid_data() {
    assert_eq!(codec::decode_frame(types::TDRAIN, &[1]).unwrap_err().kind, ErrorKind::InvalidData);
}

#[test]
fn unknown_status_is_invalid_data() {
    assert_eq!(codec::decode_rreq(&[3, 1, 2]).unwrap_err().kind, ErrorKind::InvalidData);
    assert_eq!(codec::decode_rdispatch(&[7, 0, 0]).unwrap_err().kind, ErrorKind::InvalidData);
}

#[test]
fn invalid_utf8_is_invalid_data() {
    assert_eq!(codec::decode_rerr(&[0xff, 0xfe]).unwrap_err().kind, ErrorKind::InvalidData);
    assert_eq!(codec::decode_rreq(&[1, 0xc3]).unwrap_err().kind, ErrorKind::InvalidData);
    assert_eq!(codec::decode_u16_string(&[0, 1, 0x80], 0).unwrap_err().kind, ErrorKind::InvalidData);
}

#[test]
fn lease_unit_must_be_milliseconds() {
    let buf = [1, 0, 0, 0, 0, 0, 0, 3, 232];
    assert_eq!(codec::decode_tlease_duration(&buf).unwrap_err().kind, ErrorKind::InvalidData);
    assert_eq!(codec::decode_tlease_duration(&buf[..5]).unwrap_err().kind, ErrorKind::UnexpectedEof);
}

#[test]
fn lease_encoding_truncates_to_milliseconds() {
    let mut w = Vec::new();
    codec::encode_tlease_duration(&mut w, &Duration::new(2, 999_999)).unwrap();
    assert_eq!(w, vec![0, 0, 0, 0, 0, 0, 0, 0x07, 0xd0]);
    let mut w = Vec::new();
    let huge = Duration::new(u64::MAX, 0);
    assert_eq!(codec::encode_tlease_duration(&mut w, &huge).unwrap_err().kind, ErrorKind::InvalidInput);
    assert!(w.is_empty());
}

#[test]
fn truncated_input_is_unexpected_eof() {
    assert_eq!(codec::decode_headers(&[2, 1, 3, 9], 0).unwrap_err().kind, ErrorKind::UnexpectedEof);
    assert_eq!(codec::decode_contexts(&[0, 1, 0, 4, 1], 0).unwrap_err().kind, ErrorKind::UnexpectedEof);
    assert_eq!(codec::decode_treq(&[]).unwrap_err().kind, ErrorKind::UnexpectedEof);
    assert_eq!(codec::decode_init(&[0]).unwrap_err().kind, ErrorKind::UnexpectedEof);
    assert_eq!(codec::decode_init(&[0, 1, 0, 0]).unwrap_err().kind, ErrorKind::UnexpectedEof);
    assert_eq!(codec::read_message(&[0, 0, 0, 9, 65]).unwrap_err().kind, ErrorKind::UnexpectedEof);
}

#[test]
fn init_ends_with_the_frame() {
    let i = codec::decode_init(&[0, 7]).unwrap();
    assert_eq!(i, Init { version: 7, headers: vec![] });
    let i = codec::decode_init(&[0, 1, 0, 0, 0, 1, 9, 0, 0, 0, 0]).unwrap();
    assert_eq!(i, Init { version: 1, headers: vec![(vec![9], vec![])] });
}

#[test]
fn short_frame_length_is_invalid_data() {
    assert_eq!(codec::decode_frame_length(&[0, 0, 0, 3]).unwrap_err().kind, ErrorKind::InvalidData);
    assert_eq!(codec::decode_frame_length(&[0xff, 0xff, 0xff, 0xff]).unwrap_err().kind, ErrorKind::InvalidData);
    assert_eq!(codec::decode_frame_length(&[0, 0, 1, 0]).unwrap(), 256);
    assert_eq!(codec::read_message(&[0, 0, 0, 2, 65, 0]).unwrap_err().kind, ErrorKind::InvalidData);
}

#[test]
fn too_many_headers_write_nothing() {
    let headers: Vec<(u8, Vec<u8>)> = (0..256).map(|i| (i as u8, vec![])).collect();
    let mut w = vec![9];
    assert_eq!(codec::encode_headers(&mut w, &headers).unwrap_err().kind, ErrorKind::InvalidInput);
    assert_eq!(w, vec![9]);
    let long = vec![(1u8, vec![0u8; 256])];
    assert_eq!(codec::encode_headers(&mut w, &long).unwrap_err().kind, ErrorKind::InvalidInput);
    assert_eq!(w, vec![9]);
    let ok: Vec<(u8, Vec<u8>)> = (0..255).map(|i| (i as u8, vec![])).collect();
    codec::encode_headers(&mut w, &ok).unwrap();
    assert_eq!(w.len(), 1 + 1 + 255 * 2);
}

#[test]
fn oversized_context_writes_nothing() {
    let contexts = vec![(vec![1], vec![2]), (vec![0u8; 0x1_0000], vec![])];
    let msg = Tdispatch { contexts, dest: "/a".to_owned(), dtab: Dtab::new(), body: vec![] };
    let mut w = Vec::new();
    assert_eq!(codec::encode_tdispatch(&mut w, &msg).unwrap_err().kind, ErrorKind::InvalidInput);
    assert!(w.is_empty());
    let long_dest = "x".repeat(0x1_0000);
    assert_eq!(codec::encode_u16_string(&mut w, &long_dest).unwrap_err().kind, ErrorKind::InvalidInput);
    assert!(w.is_empty());
    let big_id = Tdiscarded { id: 0x100_0000, msg: String::new() };
    assert_eq!(codec::encode_tdiscarded(&mut w, &big_id).unwrap_err().kind, ErrorKind::InvalidInput);
    let bad_tag = Message { tag: Tag { end: true, id: 0x80_0000 }, frame: MessageFrame::Tping };
    assert_eq!(codec::write_message(&mut w, &bad_tag).unwrap_err().kind, ErrorKind::InvalidInput);
    assert!(w.is_empty());
}

#[test]
fn sizes_follow_the_formulas() {
    let body = b"hello world".to_vec();
    let ctx = vec![(body.clone(), body.clone())];
    assert_eq!(context_size(&ctx), 2 + 4 + 11 + 11);
    let dtab = Dtab::from_entries(vec![Dentry::new("/f/foo".to_owned(), "/go".to_owned())]);
    assert_eq!(dtab_size(&dtab), 2 + 4 + 6 + 3);
    let t = Tdispatch { contexts: ctx.clone(), dest: "/path".to_owned(), dtab, body: body.clone() };
    assert_eq!(tdispatch_size(&t), 2 + 28 + 15 + 5 + 11);
    let r = Rdispatch { contexts: ctx, msg: Rmsg::Error("héllo".to_owned()) };
    assert_eq!(rdispatch_size(&r), 1 + 28 + 6);
    assert_eq!(rmsg_size(&Rmsg::Nack("ab".to_owned())), 2);
    let q = Treq { headers: vec![(1, vec![1, 2]), (2, vec![])], body: vec![0; 3] };
    assert_eq!(treq_size(&q), 1 + 4 + 2 + 3);
    let i = Init { version: 1, headers: vec![(vec![1], vec![2, 3])] };
    assert_eq!(init_size(&i), 2 + 8 + 3);
    assert_eq!(frame_size(&MessageFrame::Tlease(mux::Tlease { duration: Duration::from_millis(1) })), 9);
    assert_eq!(frame_size(&MessageFrame::Tdiscarded(Tdiscarded { id: 1, msg: "ab".to_owned() })), 5);
}

#[test]
fn non_ascii_strings_count_utf8_bytes() {
    let mut w = Vec::new();
    codec::encode_u16_string(&mut w, "é").unwrap();
    assert_eq!(w, vec![0, 2, 0xc3, 0xa9]);
    let (s, end) = codec::decode_u16_string(&w, 0).unwrap();
    assert_eq!((s.as_str(), end), ("é", 4));
}

#[test]
fn tdispatch_error_kinds() {
    // contexts cut short
    assert_eq!(codec::decode_tdispatch(&[0, 1, 0, 3, 1]).unwrap_err().kind, ErrorKind::UnexpectedEof);
    // destination cut short
    assert_eq!(codec::decode_tdispatch(&[0, 0, 0, 5, b'/']).unwrap_err().kind, ErrorKind::UnexpectedEof);
    // destination not UTF-8
    assert_eq!(codec::decode_tdispatch(&[0, 0, 0, 1, 0xff, 0, 0]).unwrap_err().kind, ErrorKind::InvalidData);
    // table cut short after a good destination
    assert_eq!(codec::decode_tdispatch(&[0, 0, 0, 1, b'/', 0, 1, 0]).unwrap_err().kind, ErrorKind::UnexpectedEof);
    // table key not UTF-8
    let buf = [0, 0, 0, 1, b'/', 0, 1, 0, 1, 0xff, 0, 0];
    assert_eq!(codec::decode_tdispatch(&buf).unwrap_err().kind, ErrorKind::InvalidData);
}

#[test]
fn dtab_with_bad_utf8_is_invalid_data() {
    let buf = [0, 1, 0, 1, b'a', 0, 1, 0xc0];
    assert_eq!(codec::decode_dtab(&buf, 0).unwrap_err().kind, ErrorKind::InvalidData);
    assert_eq!(codec::decode_dtab(&buf[..6], 0).unwrap_err().kind, ErrorKind::UnexpectedEof);
}

#[test]
fn rdispatch_error_kinds() {
    assert_eq!(codec::decode_rdispatch(&[]).unwrap_err().kind, ErrorKind::UnexpectedEof);
    assert_eq!(codec::decode_rdispatch(&[0, 0]).unwrap_err().kind, ErrorKind::UnexpectedEof);
    assert_eq!(codec::decode_rdispatch(&[9, 0, 0, 1]).unwrap_err().kind, ErrorKind::InvalidData);
    assert_eq!(codec::decode_rdispatch(&[2, 0, 0, 0xff]).unwrap_err().kind, ErrorKind::InvalidData);
}

#[test]
fn tdiscarded_error_kinds() {
    assert_eq!(codec::decode_tdiscarded(&[0, 1]).unwrap_err().kind, ErrorKind::UnexpectedEof);
    assert_eq!(codec::decode_tdiscarded(&[0, 0, 1, 0xff]).unwrap_err().kind, ErrorKind::InvalidData);
}

#[test]
fn message_error_kinds() {
    assert_eq!(codec::decode_message(&[65, 0, 0]).unwrap_err().kind, ErrorKind::UnexpectedEof);
    assert_eq!(codec::decode_message(&[3, 0, 0, 1]).unwrap_err().kind, ErrorKind::InvalidInput);
    assert_eq!(codec::read_message(&[0, 0, 0, 5, 67, 0, 0, 0, 1]).unwrap_err().kind, ErrorKind::UnexpectedEof);
    assert_eq!(codec::read_message(&[0, 0, 0, 4, 3, 0, 0, 1]).unwrap_err().kind, ErrorKind::InvalidInput);
}
