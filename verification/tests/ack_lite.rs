use gateway_mesh::ack_lite::{AckLite, AckLiteError, AckStatus};

#[test]
fn encode_decode_roundtrip() {
    let ack = AckLite {
        child_relay_id: 0x0A,
        uplink_id: 0x1234,
        status: AckStatus::Success,
    };

    let buf = ack.encode();
    let decoded = AckLite::decode(&buf).unwrap();
    assert_eq!(ack, decoded);
}

#[test]
fn decode_rejects_invalid_len() {
    assert!(AckLite::decode(&[1, 2, 3]).is_err());
}

#[test]
fn wire_form_is_network_byte_order() {
    let ack = AckLite {
        child_relay_id: 7,
        uplink_id: 0x0102,
        status: AckStatus::Failed,
    };
    assert_eq!(ack.encode(), [7, 1, 2, 0]);
    let ack = AckLite { status: AckStatus::Success, ..ack };
    assert_eq!(ack.encode(), [7, 1, 2, 1]);
}

#[test]
fn every_status_byte_but_two_is_refused() {
    for v in 0..=255u8 {
        let res = AckLite::decode(&[9, 0xff, 0xfe, v]);
        match v {
            0 => assert_eq!(res.unwrap().status, AckStatus::Failed),
            1 => assert_eq!(res.unwrap().uplink_id, 0xfffe),
            _ => assert_eq!(res, Err(AckLiteError::InvalidStatus(v))),
        }
    }
}

#[test]
fn ack_errors_have_texts() {
    let e = AckLite::decode(&[1, 2, 3, 4, 5]).unwrap_err();
    assert_eq!(e, AckLiteError::InvalidLength(5));
    assert_eq!(e.message(), "invalid ack-lite length: 5");
    let e = AckLite::decode(&[1, 2, 3, 204]).unwrap_err();
    assert_eq!(e.message(), "invalid ack-lite status: 204");
}
