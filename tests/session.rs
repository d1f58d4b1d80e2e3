use nvim_rs::call_table::CallTable;
use nvim_rs::session::{CallError, EndCause, Session, Step};
use nvim_rs::value::Value;

fn s(t: &str) -> Value {
    Value::String(t.as_bytes().to_vec())
}

#[test]
fn ids_come_in_order_and_responses_in_any_order() {
    let mut t: CallTable<&str> = CallTable::new();
    assert_eq!(t.register("a"), Ok(0));
    assert_eq!(t.register("b"), Ok(1));
    assert_eq!(t.register("c"), Ok(2));
    assert_eq!(t.resolve(2), Some("c"));
    assert_eq!(t.resolve(0), Some("a"));
    assert_eq!(t.resolve(1), Some("b"));
    assert_eq!(t.len(), 0);
}

#[test]
fn resolve_of_unknown_id_is_a_no_op() {
    let mut t: CallTable<u32> = CallTable::new();
    assert_eq!(t.register(10), Ok(0));
    assert_eq!(t.resolve(5), None);
    assert_eq!(t.len(), 1);
    assert!(t.is_pending(0));
    assert_eq!(t.resolve(0), Some(10));
    assert_eq!(t.resolve(0), None);
    assert_eq!(t.len(), 0);
}

#[test]
fn drain_takes_every_slot() {
    let mut t: CallTable<u32> = CallTable::new();
    for k in 0..4 {
        assert_eq!(t.register(k * 10), Ok(k as u64));
    }
    assert_eq!(t.resolve(1), Some(10));
    assert_eq!(t.drain_all(), vec![0, 20, 30]);
    assert_eq!(t.len(), 0);
    assert_eq!(t.next_id(), 4);
    assert!(!t.is_pending(2));
}

#[test]
fn scenario_call_ping_gets_pong() {
    let mut sess: Session<&str> = Session::new();
    let (id, bytes) = sess.begin_call(b"ping".to_vec(), vec![], "caller").unwrap();
    assert_eq!(id, 0);
    assert_eq!(bytes, vec![0x94, 0x00, 0x00, 0xa4, b'p', b'i', b'n', b'g', 0x90]);
    assert_eq!(sess.outstanding(), 1);
    sess.feed(&vec![0x94, 0x01, 0x00, 0xc0, 0xa4, b'p', b'o', b'n', b'g']);
    assert_eq!(sess.poll(), Step::Response { slot: Some("caller"), result: Ok(s("pong")) });
    assert_eq!(sess.outstanding(), 0);
    assert_eq!(sess.poll(), Step::NeedBytes);
}

#[test]
fn scenario_peer_request_is_answered() {
    let mut sess: Session<u8> = Session::new();
    sess.feed(&vec![0x94, 0x00, 0x07, 0xa4, b'e', b'c', b'h', b'o', 0x91, 0xa2, b'h', b'i']);
    let step = sess.poll();
    assert_eq!(step, Step::Request { id: 7, method: b"echo".to_vec(), params: vec![s("hi")] });
    assert_eq!(
        sess.reply(7, Ok(s("hi"))),
        Ok(vec![0x94, 0x01, 0x07, 0xc0, 0xa2, b'h', b'i'])
    );
    assert_eq!(
        sess.reply(8, Err(s("no"))),
        Ok(vec![0x94, 0x01, 0x08, 0xa2, b'n', b'o', 0xc0])
    );
    assert_eq!(sess.outstanding(), 0);
    assert_eq!(sess.end_cause(), None);
}

#[test]
fn scenario_transport_killed_mid_call() {
    let mut sess: Session<&str> = Session::new();
    sess.begin_call(b"slow".to_vec(), vec![], "waiting").unwrap();
    assert_eq!(sess.close(EndCause::PeerClosed), vec!["waiting"]);
    assert_eq!(sess.end_cause(), Some(EndCause::PeerClosed));
    assert_eq!(sess.outstanding(), 0);
    assert_eq!(sess.poll(), Step::Stopped);
    assert_eq!(
        sess.begin_call(b"late".to_vec(), vec![], "late"),
        Err((CallError::Closed, "late"))
    );
    assert_eq!(sess.notify(b"n".to_vec(), vec![]), Err(CallError::Closed));
    assert_eq!(sess.close(EndCause::WriteFailed), Vec::<&str>::new());
    assert_eq!(sess.end_cause(), Some(EndCause::PeerClosed));
}

#[test]
fn eof_fails_all_outstanding_calls() {
    let mut sess: Session<u32> = Session::new();
    for k in 0..5u32 {
        let (id, _) = sess.begin_call(b"m".to_vec(), vec![Value::Integer(k as i128)], k).unwrap();
        assert_eq!(id, k as u64);
    }
    assert_eq!(sess.close(EndCause::PeerClosed), vec![0, 1, 2, 3, 4]);
    assert_eq!(sess.outstanding(), 0);
}

#[test]
fn responses_out_of_order_reach_their_callers() {
    let mut sess: Session<char> = Session::new();
    for c in ['a', 'b', 'c'] {
        sess.begin_call(b"m".to_vec(), vec![], c).unwrap();
    }
    // responses for ids 2, 0, 1, each carrying its id as result
    sess.feed(&vec![0x94, 0x01, 0x02, 0xc0, 0x02, 0x94, 0x01, 0x00, 0xc0, 0x00]);
    sess.feed(&vec![0x94, 0x01, 0x01, 0xc0, 0x01]);
    assert_eq!(sess.poll(), Step::Response { slot: Some('c'), result: Ok(Value::Integer(2)) });
    assert_eq!(sess.poll(), Step::Response { slot: Some('a'), result: Ok(Value::Integer(0)) });
    assert_eq!(sess.poll(), Step::Response { slot: Some('b'), result: Ok(Value::Integer(1)) });
    assert_eq!(sess.poll(), Step::NeedBytes);
}

#[test]
fn duplicate_response_is_dropped() {
    let mut sess: Session<u8> = Session::new();
    sess.begin_call(b"m".to_vec(), vec![], 1).unwrap();
    sess.feed(&vec![0x94, 0x01, 0x00, 0xc0, 0xc3, 0x94, 0x01, 0x00, 0xc0, 0xc2]);
    assert_eq!(sess.poll(), Step::Response { slot: Some(1), result: Ok(Value::Boolean(true)) });
    assert_eq!(sess.poll(), Step::Response { slot: None, result: Ok(Value::Boolean(false)) });
    assert_eq!(sess.end_cause(), None);
}

#[test]
fn peer_error_is_the_inner_error() {
    let mut sess: Session<u8> = Session::new();
    sess.begin_call(b"m".to_vec(), vec![], 1).unwrap();
    sess.feed(&vec![0x94, 0x01, 0x00, 0xa3, b'b', b'a', b'd', 0xc0]);
    assert_eq!(sess.poll(), Step::Response { slot: Some(1), result: Err(s("bad")) });
}

#[test]
fn frame_split_across_reads() {
    let mut sess: Session<u8> = Session::new();
    sess.feed(&vec![0x93, 0x02, 0xa3, b'e', b'v']);
    assert_eq!(sess.poll(), Step::NeedBytes);
    sess.feed(&vec![b't', 0x91, 0x2a]);
    assert_eq!(
        sess.poll(),
        Step::Notification { method: b"evt".to_vec(), params: vec![Value::Integer(42)] }
    );
    assert_eq!(sess.poll(), Step::NeedBytes);
}

#[test]
fn malformed_bytes_end_the_session() {
    let mut sess: Session<u8> = Session::new();
    sess.begin_call(b"a".to_vec(), vec![], 1).unwrap();
    sess.begin_call(b"b".to_vec(), vec![], 2).unwrap();
    sess.feed(&vec![0xc1]);
    assert_eq!(sess.poll(), Step::Failed { slots: vec![1, 2] });
    assert_eq!(sess.end_cause(), Some(EndCause::Malformed));
    assert_eq!(sess.poll(), Step::Stopped);
}

#[test]
fn notify_needs_no_reply_and_registers_nothing() {
    let mut sess: Session<u8> = Session::new();
    assert_eq!(
        sess.notify(b"f".to_vec(), vec![Value::Boolean(true)]),
        Ok(vec![0x93, 0x02, 0xa1, b'f', 0x91, 0xc3])
    );
    assert_eq!(sess.outstanding(), 0);
    let (id, _) = sess.begin_call(b"g".to_vec(), vec![], 0).unwrap();
    assert_eq!(id, 0);
}

#[test]
fn unwritable_call_is_not_sent() {
    let mut sess: Session<u8> = Session::new();
    let r = sess.begin_call(b"m".to_vec(), vec![Value::Integer(u64::MAX as i128 + 1)], 9);
    assert_eq!(r, Err((CallError::NotSent, 9)));
    assert_eq!(sess.outstanding(), 0);
    assert_eq!(sess.notify(b"m".to_vec(), vec![Value::Integer(-(1 << 64))]), Err(CallError::NotSent));
}

#[test]
fn write_failure_ends_the_session() {
    let mut sess: Session<u8> = Session::new();
    sess.begin_call(b"m".to_vec(), vec![], 3).unwrap();
    assert_eq!(sess.close(EndCause::WriteFailed), vec![3]);
    assert_eq!(sess.end_cause(), Some(EndCause::WriteFailed));
}
