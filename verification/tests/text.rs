use gateway_mesh::hexadecimal::{parse_relay, relay_text, HexError};
use gateway_mesh::mesh::MeshError;
use gateway_mesh::narrow::{to_low_byte, to_low_i16};
use gateway_mesh::relay::{same_optional_relay, same_relay, to_relay_number};
use gateway_mesh::text::{to_decimal, to_padded};

#[test]
fn relay_identifiers_in_hexadecimal() {
    assert_eq!(relay_text(&[0x01, 0xab, 0x00, 0xff]), "01ab00ff");
    assert_eq!(parse_relay("01ab00ff"), Ok([0x01, 0xab, 0x00, 0xff]));
    assert_eq!(parse_relay("01AB00FF"), Ok([0x01, 0xab, 0x00, 0xff]));
    for id in [[0, 0, 0, 0], [255; 4], [1, 2, 3, 4], [0x10, 0x0f, 0xf0, 0x9a]] {
        assert_eq!(parse_relay(&relay_text(&id)), Ok(id));
    }
}

#[test]
fn texts_that_name_no_relay() {
    assert_eq!(parse_relay(""), Err(HexError::InvalidLength));
    assert_eq!(parse_relay("abc"), Err(HexError::OddLength));
    assert_eq!(parse_relay("zzz"), Err(HexError::OddLength));
    assert_eq!(parse_relay("010203"), Err(HexError::InvalidLength));
    assert_eq!(parse_relay("0102030405"), Err(HexError::InvalidLength));
    assert_eq!(
        parse_relay("0102x3y4"),
        Err(HexError::InvalidCharacter { c: 'x', index: 4 })
    );
    // Two bytes of UTF-8 count as two.
    assert_eq!(
        parse_relay("01020\u{e9}0"),
        Err(HexError::InvalidCharacter { c: '\u{c3}', index: 5 })
    );
}

#[test]
fn mesh_errors_have_texts() {
    let texts = [
        (MeshError::NoFrequencies, "No mesh frequencies are configured"),
        (MeshError::NoUplinkContext(417), "No uplink context for uplink_id: 417"),
        (MeshError::MissingRxInfo, "rx_info is None"),
        (MeshError::MissingTxInfo, "tx_info is None"),
        (MeshError::MissingModulation, "modulation is None"),
        (MeshError::MissingTiming, "timing is None"),
        (MeshError::UnsupportedTiming, "Only Delay timing is supported"),
        (MeshError::ShortContext, "context does not contain enough bytes"),
        (MeshError::NotAnUplink, "Expected Uplink payload"),
        (MeshError::NotAnEvent, "Expected Heartbeat payload"),
        (MeshError::MaxHopCount, "Max hop count exceeded"),
        (MeshError::InvalidRelayId(HexError::OddLength), "Odd number of digits"),
        (MeshError::InvalidRelayId(HexError::InvalidLength), "Invalid string length"),
        (
            MeshError::InvalidRelayId(HexError::InvalidCharacter { c: 'x', index: 4 }),
            "Invalid character 'x' at position 4",
        ),
    ];
    for (error, text) in texts {
        assert_eq!(error.message(), text);
    }
}

#[test]
fn numbers_are_cut_to_their_low_bits() {
    for n in [0, 1, -1, 32767, 32768, -32768, -32769, 65536, i32::MAX, i32::MIN] {
        assert_eq!(to_low_i16(n), n as i16);
    }
    for n in [0, 1, -1, 255, 256, -256, 300, i64::MAX, i64::MIN] {
        assert_eq!(to_low_byte(n), n as u8);
    }
}

#[test]
fn decimal_numbers() {
    assert_eq!(to_decimal(0), "0");
    assert_eq!(to_decimal(1_234_567_890), "1234567890");
    assert_eq!(to_decimal(u128::MAX), u128::MAX.to_string());
    assert_eq!(to_padded(7, 3), "007");
    assert_eq!(to_padded(12345, 3), "345");
}

#[test]
fn relay_identifiers_compare_by_all_bytes() {
    assert_eq!(to_relay_number(&[1, 2, 3, 4]), 0x0102_0304);
    assert!(same_relay(&[1, 2, 3, 4], &[1, 2, 3, 4]));
    assert!(!same_relay(&[1, 2, 3, 4], &[4, 3, 2, 1]));
    assert!(same_optional_relay(&None, &None));
    assert!(!same_optional_relay(&Some([0; 4]), &None));
}
