use wordbush::protocol::{decode_content, frame_message, u32_to_u8, u8_to_u32, ProtocolError, MAX_MSG_SIZE};

#[test]
fn u32_bytes_are_little_endian() {
    assert_eq!(u32_to_u8(0x0403_0201), [1, 2, 3, 4]);
    assert_eq!(u8_to_u32([1, 2, 3, 4]), 0x0403_0201);
    assert_eq!(u32_to_u8(12), [12, 0, 0, 0]);
    assert_eq!(u8_to_u32([0xff, 0xff, 0xff, 0xff]), u32::MAX);
}

#[test]
fn u32_bytes_round_trip() {
    for n in [0u32, 1, 255, 256, 65_535, 65_536, 123_456_789, u32::MAX] {
        assert_eq!(u8_to_u32(u32_to_u8(n)), n);
    }
    for b in [[0u8, 0, 0, 0], [7, 0, 200, 1], [255, 1, 2, 3]] {
        assert_eq!(u32_to_u8(u8_to_u32(b)), b);
    }
}

#[test]
fn frame_and_read_back_a_message() {
    let content = String::from("test message");
    let message = frame_message(&content).unwrap();
    assert_eq!(message.len(), 16);
    assert_eq!(&message[0..4], &[12, 0, 0, 0]);
    assert_eq!(&message[4..], content.as_bytes());

    let len = u8_to_u32([message[0], message[1], message[2], message[3]]) as usize;
    let received = decode_content(message[4..4 + len].to_vec()).unwrap();
    assert_eq!(received, String::from("test message"));
}

#[test]
fn frame_counts_characters_but_carries_bytes() {
    let message = frame_message(&String::from("hé")).unwrap();
    assert_eq!(message, vec![2, 0, 0, 0, b'h', 0xc3, 0xa9]);
}

#[test]
fn frame_of_empty_content_is_the_header() {
    assert_eq!(frame_message(&String::new()), Ok(vec![0, 0, 0, 0]));
}

#[test]
fn frame_rejects_too_large_message() {
    let fits = "a".repeat(MAX_MSG_SIZE - 4);
    assert_eq!(frame_message(&fits).map(|m| m.len()), Ok(MAX_MSG_SIZE));
    let too_large = "a".repeat(MAX_MSG_SIZE - 3);
    let err = frame_message(&too_large).unwrap_err();
    assert_eq!(err, ProtocolError::MessageTooLarge);
    assert_eq!(err.description(), Some("message content too large"));
    assert_eq!(ProtocolError::EmptyMessage.description(), Some("cannot send empty message"));
}

#[test]
fn invalid_utf8_is_described_by_its_error() {
    let err = decode_content(vec![0xff]).unwrap_err();
    assert_eq!(err.description(), None);
}

#[test]
fn decode_rejects_invalid_utf8() {
    match decode_content(vec![b'a', 0xff, 0xfe]) {
        Err(ProtocolError::InvalidUtf8(e)) => {
            assert_eq!(e.to_string(), "invalid utf-8 sequence of 1 bytes from index 1");
            assert_eq!(e.utf8_error().valid_up_to(), 1);
        }
        other => panic!("expected invalid UTF-8, got {other:?}"),
    }
    match decode_content(vec![0xc3]) {
        Err(ProtocolError::InvalidUtf8(e)) => {
            assert_eq!(e.to_string(), "incomplete utf-8 byte sequence from index 0");
        }
        other => panic!("expected invalid UTF-8, got {other:?}"),
    }
    assert_eq!(decode_content(vec![0xc3, 0xa9]), Ok(String::from("é")));
    assert_eq!(decode_content(Vec::new()), Ok(String::new()));
}
