use tcpmt::{Tlv, TlvError, TlvIterator, TlvType};

#[test]
fn parse_tlv_err_long() {
    let tlv = Tlv::decode(&[16u8, 9, 0, 0, 0, 0, 0, 0, 0, 1][..]);
    assert!(tlv.is_err());
}

#[test]
fn parse_tlv_err_type() {
    let tlv = Tlv::decode(&[20u8, 8, 0, 0, 0, 0, 0, 0, 0, 1][..]);
    assert!(tlv.is_err());
}

#[test]
fn parse_tlv_iter() {
    let mut iterator = TlvIterator::process(&[
        1u8, 2, 0, 0, 1u8, 4, 0, 0, 0, 0, 1u8, 1, 1, 1u8, 0, 1u8, 1, 2,
    ]);

    assert_eq!(
        iterator.next(),
        Some(Tlv {
            tag: TlvType::from_u8(1).unwrap(),
            length: 2,
            data: &[0, 0]
        })
    );
    assert_eq!(
        iterator.next(),
        Some(Tlv {
            tag: TlvType::from_u8(1).unwrap(),
            length: 4,
            data: &[0, 0, 0, 0]
        })
    );
    assert_eq!(
        iterator.next(),
        Some(Tlv {
            tag: TlvType::from_u8(1).unwrap(),
            length: 1,
            data: &[1]
        })
    );
    assert_eq!(
        iterator.next(),
        Some(Tlv {
            tag: TlvType::from_u8(1).unwrap(),
            length: 0,
            data: &[]
        })
    );
    assert_eq!(
        iterator.next(),
        Some(Tlv {
            tag: TlvType::from_u8(1).unwrap(),
            length: 1,
            data: &[2]
        })
    );
    assert_eq!(iterator.next(), None);
}

#[test]
fn tlv_error_kinds() {
    assert_eq!(Tlv::decode(&[20u8, 8, 0, 0, 0, 0, 0, 0, 0, 1][..]), Err(TlvError::TagUnknown));
    assert_eq!(Tlv::decode(&[16u8, 9, 0, 0, 0, 0, 0, 0, 0, 1][..]), Err(TlvError::WrongFormat));
    assert_eq!(Tlv::decode(&[][..]), Err(TlvError::WrongFormat));
    assert_eq!(Tlv::decode(&[1u8][..]), Err(TlvError::WrongFormat));
}

#[test]
fn every_unregistered_tag_is_unknown() {
    let registered = [1u8, 2, 3, 4, 5, 6, 10, 11, 16];
    for b in 0u8..=255 {
        let bytes = [b, 0];
        let r = Tlv::decode(&bytes[..]);
        if registered.contains(&b) {
            assert!(r.is_ok());
        } else {
            assert_eq!(r, Err(TlvError::TagUnknown));
        }
    }
}

#[test]
fn tlv_new_and_encode() {
    let data = [7u8, 8, 9];
    let tlv = Tlv::new(TlvType::Answer, &data).unwrap();
    assert_eq!(tlv.length, 3);
    assert_eq!(tlv.encode(), vec![10u8, 3, 7, 8, 9]);
    let long = vec![0u8; 256];
    assert_eq!(Tlv::new(TlvType::Invalid, &long), Err(TlvError::ExcessiveLength));
    let full = vec![1u8; 255];
    let enc = Tlv::new(TlvType::Invalid, &full).unwrap().encode();
    assert_eq!(enc.len(), 257);
    assert_eq!(enc[0], 11);
    assert_eq!(enc[1], 255);
}

#[test]
fn tlv_decode_leaves_trailing_bytes() {
    let tlv = Tlv::decode(&[3u8, 2, 10, 3, 99, 98][..]).unwrap();
    assert_eq!(tlv.tag, TlvType::Mul);
    assert_eq!(tlv.data, &[10u8, 3][..]);
}

#[test]
fn iterator_stops_at_first_bad_frame() {
    let mut it = TlvIterator::process(&[1u8, 2, 5, 6, 20, 0, 1, 2, 3, 4]);
    assert_eq!(it.next().unwrap().data, &[5u8, 6][..]);
    assert_eq!(it.next(), None);
    assert_eq!(it.next(), None);
    let mut truncated = TlvIterator::process(&[6u8, 1, 3, 1, 2, 3]);
    assert_eq!(truncated.next().unwrap().tag, TlvType::Fact);
    assert_eq!(truncated.next(), None);
}

#[test]
fn tag_bytes() {
    assert_eq!(TlvType::Numi64.to_u8(), 16);
    assert_eq!(TlvType::Rem.to_u8(), 5);
    assert_eq!(TlvType::from_u8(11), Ok(TlvType::Invalid));
    assert_eq!(TlvType::from_u8(7), Err(TlvError::TagUnknown));
}

#[test]
fn short_input_is_wrong_format_whatever_the_tag() {
    assert_eq!(Tlv::decode(&[20u8][..]), Err(TlvError::WrongFormat));
    assert_eq!(Tlv::decode(&[20u8, 9, 0][..]), Err(TlvError::WrongFormat));
    assert_eq!(Tlv::decode(&[20u8, 1][..]), Err(TlvError::WrongFormat));
    assert_eq!(Tlv::decode(&[20u8, 1, 0][..]), Err(TlvError::TagUnknown));
}
