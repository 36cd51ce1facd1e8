use tcpmt::{Answer, AnswerOrder, InvalidOperation, Numberi64, TCPLibError, Tlv};

#[test]
fn parse_answer_1() {
    let tlv = Tlv::decode(&[16u8, 8, 0, 0, 0, 0, 0, 0, 0, 1][..]);
    assert!(tlv.is_ok());
    let answer = Numberi64::decode(&tlv.unwrap());
    assert!(answer.is_ok());
    assert_eq!(answer.unwrap(), 1.into());
}

#[test]
fn parse_answer_minus1() {
    let tlv = Tlv::decode(&[16u8, 8, 0xff, 0xff, 0xff, 0xff, 0xff, 0xff, 0xff, 0xff][..]);
    assert!(tlv.is_ok());
    let answer = Numberi64::decode(&tlv.unwrap());
    assert!(answer.is_ok());
    assert_eq!(answer.unwrap(), (-1).into());
}

#[test]
fn parse_answer_err_short() {
    let tlv = Tlv::decode(&[16u8, 7, 0, 0, 0, 0, 0, 0, 0, 1][..]);
    assert!(tlv.is_ok());
    let answer = Numberi64::decode(&tlv.unwrap());
    assert!(answer.is_err());
}

#[test]
fn encode_answer() {
    assert_eq!(Numberi64(1).encode()[..], [16u8, 8, 0, 0, 0, 0, 0, 0, 0, 1]);
    assert_eq!(
        Numberi64(-1).encode()[..],
        [16u8, 8, 0xff, 0xff, 0xff, 0xff, 0xff, 0xff, 0xff, 0xff]
    );
}

#[test]
fn number_big_endian() {
    assert_eq!(
        Numberi64(0x0102030405060708).encode(),
        vec![16u8, 8, 1, 2, 3, 4, 5, 6, 7, 8]
    );
    assert_eq!(
        Numberi64(i64::MIN).encode(),
        vec![16u8, 8, 0x80, 0, 0, 0, 0, 0, 0, 0]
    );
    let t = Tlv::decode(&[16u8, 8, 0x7f, 0xff, 0xff, 0xff, 0xff, 0xff, 0xff, 0xfe][..]).unwrap();
    assert_eq!(Numberi64::decode(&t), Ok(Numberi64(i64::MAX - 1)));
}

#[test]
fn answer_bytes_in_both_orders() {
    let first = Answer::new(5, Some("ab".to_string())).encode(AnswerOrder::MessageFirst);
    assert_eq!(
        first,
        vec![10u8, 14, 11, 2, b'a', b'b', 16, 8, 0, 0, 0, 0, 0, 0, 0, 5]
    );
    let last = Answer::new(5, Some("ab".to_string())).encode(AnswerOrder::MessageLast);
    assert_eq!(
        last,
        vec![10u8, 14, 16, 8, 0, 0, 0, 0, 0, 0, 0, 5, 11, 2, b'a', b'b']
    );
    let plain = Answer::new(-2, None).encode(AnswerOrder::MessageFirst);
    assert_eq!(
        plain,
        vec![10u8, 10, 16, 8, 0xff, 0xff, 0xff, 0xff, 0xff, 0xff, 0xff, 0xfe]
    );
}

#[test]
fn answer_round_trips() {
    for order in [AnswerOrder::MessageFirst, AnswerOrder::MessageLast] {
        for (acc, msg) in [
            (0i64, None),
            (i64::MAX, Some("Wrong domain".to_string())),
            (i64::MIN, Some("d\u{e9}j\u{e0} vu \u{1f600}".to_string())),
        ] {
            let answer = Answer::new(acc, msg);
            let bytes = answer.clone().encode(order);
            let tlv = Tlv::decode(&bytes).unwrap();
            assert_eq!(Answer::decode(&tlv), Ok(answer));
        }
    }
}

#[test]
fn answer_decode_scans_for_nested_frames() {
    let bytes = [
        10u8, 20, 1, 2, 0, 0, 16, 8, 0, 0, 0, 0, 0, 0, 0, 9, 16, 1, 0, 11, 1, b'x',
    ];
    let tlv = Tlv::decode(&bytes[..]).unwrap();
    let answer = Answer::decode(&tlv).unwrap();
    assert_eq!(answer.acc, Numberi64(9));
    assert_eq!(answer.message.unwrap().as_str(), "x");
}

#[test]
fn answer_decode_errors() {
    let no_acc = [10u8, 3, 11, 1, b'x'];
    assert_eq!(Answer::decode(&Tlv::decode(&no_acc[..]).unwrap()), Err(TCPLibError::Generic));
    let empty = [10u8, 0];
    assert_eq!(Answer::decode(&Tlv::decode(&empty[..]).unwrap()), Err(TCPLibError::Generic));
    let wrong_tag = [16u8, 8, 0, 0, 0, 0, 0, 0, 0, 1];
    assert_eq!(Answer::decode(&Tlv::decode(&wrong_tag[..]).unwrap()), Err(TCPLibError::Generic));
    let short_acc = [10u8, 9, 16, 7, 0, 0, 0, 0, 0, 0, 1];
    assert_eq!(Answer::decode(&Tlv::decode(&short_acc[..]).unwrap()), Err(TCPLibError::Generic));
    let bad_text = [10u8, 13, 16, 8, 0, 0, 0, 0, 0, 0, 0, 1, 11, 1, 0xff];
    assert_eq!(
        Answer::decode(&Tlv::decode(&bad_text[..]).unwrap()),
        Err(TCPLibError::ParseStringError)
    );
    let empty_text = [10u8, 12, 16, 8, 0, 0, 0, 0, 0, 0, 0, 1, 11, 0];
    assert_eq!(Answer::decode(&Tlv::decode(&empty_text[..]).unwrap()), Err(TCPLibError::Generic));
}

#[test]
fn diagnostic_frames() {
    let m = InvalidOperation::new("Wrong domain".to_string());
    assert_eq!(m.as_str(), "Wrong domain");
    let bytes = m.encode();
    assert_eq!(&bytes[..2], &[11u8, 12]);
    let back = InvalidOperation::decode(&Tlv::decode(&bytes).unwrap()).unwrap();
    assert_eq!(back.as_str(), "Wrong domain");
}
