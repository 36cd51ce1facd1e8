use tcpmt::{Answer, AnswerOrder, Numberi64, Operation, Session, Tlv};

#[test]
fn session_adds_results() {
    let mut s = Session::new();
    let a = s.apply(&Operation::Sum((2, 3).into()));
    assert_eq!(a.acc, Numberi64(5));
    assert!(a.message.is_none());
    let b = s.apply(&Operation::Mul((10, 10).into()));
    assert_eq!(b.acc, Numberi64(105));
    assert!(b.message.is_none());
    assert_eq!(s.accumulator(), 105);
}

#[test]
fn session_error_keeps_accumulator() {
    let mut s = Session::with_accumulator(5);
    let a = s.apply(&Operation::Div((5, 0).into()));
    assert_eq!(a.acc, Numberi64(5));
    assert_eq!(a.message.unwrap().as_str(), "Wrong domain");
    assert_eq!(s.accumulator(), 5);
}

#[test]
fn session_saturates() {
    let mut s = Session::with_accumulator(i64::MAX - 10);
    let a = s.apply(&Operation::Fact((20).into()));
    assert_eq!(a.acc, Numberi64(i64::MAX));
    let mut t = Session::with_accumulator(i64::MIN + 1);
    let b = t.apply(&Operation::Sub((-128, 127).into()));
    assert_eq!(b.acc, Numberi64(i64::MIN));
}

#[test]
fn session_handles_bad_frame() {
    let mut s = Session::with_accumulator(3);
    let tlv = Tlv::decode(&[1u8, 1, 7][..]).unwrap();
    let a = s.handle(&tlv);
    assert_eq!(a.acc, Numberi64(3));
    assert_eq!(a.message.unwrap().as_str(), "Something wrong");
}

#[test]
fn session_responds_to_packed_frames() {
    let mut s = Session::new();
    let buf = [1u8, 2, 2, 3, 3, 2, 10, 10, 4, 2, 5, 0, 6, 1];
    let out = s.respond(&buf, AnswerOrder::MessageLast);
    assert_eq!(out.len(), 3);
    assert_eq!(out[0], Answer::new(5, None).encode(AnswerOrder::MessageLast));
    assert_eq!(out[1], Answer::new(105, None).encode(AnswerOrder::MessageLast));
    assert_eq!(
        out[2],
        Answer::new(105, Some("Wrong domain".to_string())).encode(AnswerOrder::MessageLast)
    );
    assert_eq!(s.accumulator(), 105);
}
