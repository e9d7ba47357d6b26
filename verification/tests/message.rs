use protohackers::line_reversal::message::{InvalidMessage, InvalidReason, Message};

fn decode(packet: &[u8]) -> Result<Message, InvalidMessage> {
    Message::try_from(packet)
}

#[test]
fn test_new_message() {
    let packet = b"/connect/1234567/";
    assert_eq!(
        Message::try_from(&packet[..]).unwrap(),
        Message::Connect(1234567)
    );

    let packet = b"/data/1234567/0/hello/";
    assert_eq!(
        Message::try_from(&packet[..]).unwrap(),
        Message::Data {
            session: 1234567,
            position: 0,
            data: "hello".to_string(),
        }
    );

    let packet = b"/ack/1234567/1024/";
    assert_eq!(
        Message::try_from(&packet[..]).unwrap(),
        Message::Ack {
            session: 1234567,
            position: 1024,
        }
    );

    let packet = b"/close/1234567/";
    assert_eq!(
        Message::try_from(&packet[..]).unwrap(),
        Message::Disconnect(1234567)
    );
}

#[test]
fn test_data_escape() {
    let packet = br"/data/782831017/3/\/bar\/baz\nfoo\\bar\\baz\n/";
    assert_eq!(
        Message::try_from(&packet[..]).unwrap(),
        Message::Data {
            session: 782831017,
            position: 3,
            data: r"/bar/baz\nfoo\bar\baz\n".to_string(),
        }
    );

    let packet = br"/data/1805784010/41/illegal data/has too many/parts/";
    assert!(Message::try_from(&packet[..]).is_err());
}

#[test]
fn encode_each_message_type() {
    assert_eq!(Message::Connect(1234567).to_vec(), b"/connect/1234567/".to_vec());
    assert_eq!(
        Message::Data { session: 1234567, position: 0, data: "hello".to_string() }.to_vec(),
        b"/data/1234567/0/hello/".to_vec()
    );
    assert_eq!(
        Message::Ack { session: 1234567, position: 1024 }.to_vec(),
        b"/ack/1234567/1024/".to_vec()
    );
    assert_eq!(Message::Disconnect(1234567).to_vec(), b"/close/1234567/".to_vec());
    assert_eq!(Message::Connect(0).to_vec(), b"/connect/0/".to_vec());
    assert_eq!(
        Message::Ack { session: u32::MAX, position: u32::MAX }.to_vec(),
        b"/ack/4294967295/4294967295/".to_vec()
    );
}

#[test]
fn encode_escapes_backslash_then_slash() {
    let message = Message::Data { session: 1, position: 2, data: r"a/b\c".to_string() };
    assert_eq!(message.to_vec(), br"/data/1/2/a\/b\\c/".to_vec());
    let message = Message::Data { session: 1, position: 2, data: r"\/".to_string() };
    assert_eq!(message.to_vec(), br"/data/1/2/\\\//".to_vec());
}

#[test]
fn round_trip_plain_payload() {
    let message = Message::Data { session: 7, position: 11, data: "hello world\n".to_string() };
    assert_eq!(decode(&message.to_vec()).unwrap(), message);
}

#[test]
fn round_trip_payload_with_both_escapes() {
    for text in [r"/", r"\", r"\/", r"/\", r"a\/b//c\\d\", r"\\//\\", "foo/bar\\baz\n"] {
        let message = Message::Data { session: 12345, position: 678, data: text.to_string() };
        assert_eq!(decode(&message.to_vec()).unwrap(), message);
    }
}

#[test]
fn round_trip_other_messages() {
    for message in [
        Message::Connect(0),
        Message::Connect(u32::MAX),
        Message::Ack { session: 3, position: 0 },
        Message::Ack { session: u32::MAX, position: u32::MAX },
        Message::Disconnect(42),
        Message::Data { session: 1, position: 0, data: String::new() },
    ] {
        assert_eq!(decode(&message.to_vec()).unwrap(), message);
    }
}

#[test]
fn session_id_of_each_message_type() {
    assert_eq!(Message::Connect(1).session_id(), 1);
    assert_eq!(Message::Data { session: 2, position: 0, data: String::new() }.session_id(), 2);
    assert_eq!(Message::Ack { session: 3, position: 9 }.session_id(), 3);
    assert_eq!(Message::Disconnect(4).session_id(), 4);
}

fn reason(packet: &[u8]) -> InvalidReason {
    match Message::decode(packet) {
        Ok(message) => panic!("decoded {:?}", message),
        Err(InvalidMessage(reason)) => reason,
    }
}

#[test]
fn decode_rejects_non_ascii() {
    assert_eq!(reason(b"/data/1/0/\xc3\xa9/"), InvalidReason::NotAscii);
    assert_eq!(reason(b"\xff"), InvalidReason::NotAscii);
}

#[test]
fn decode_rejects_missing_delimiters() {
    assert_eq!(reason(b""), InvalidReason::NotDelimited);
    assert_eq!(reason(b"/"), InvalidReason::NotDelimited);
    assert_eq!(reason(b"connect/1/"), InvalidReason::NotDelimited);
    assert_eq!(reason(b"/connect/1"), InvalidReason::NotDelimited);
}

#[test]
fn decode_rejects_unknown_type() {
    assert_eq!(reason(b"//"), InvalidReason::UnknownType);
    assert_eq!(reason(b"/hello/1/"), InvalidReason::UnknownType);
    assert_eq!(reason(b"/CONNECT/1/"), InvalidReason::UnknownType);
    assert_eq!(reason(b"/connec/1/"), InvalidReason::UnknownType);
}

#[test]
fn decode_rejects_wrong_field_count() {
    assert_eq!(reason(b"/connect/"), InvalidReason::FieldCount);
    assert_eq!(reason(b"/connect/1/2/"), InvalidReason::FieldCount);
    assert_eq!(reason(b"/close/1/2/"), InvalidReason::FieldCount);
    assert_eq!(reason(b"/ack/1/"), InvalidReason::FieldCount);
    assert_eq!(reason(b"/ack/1/2/3/"), InvalidReason::FieldCount);
    assert_eq!(reason(b"/data/1/2/"), InvalidReason::FieldCount);
    assert_eq!(reason(b"/data/1/"), InvalidReason::FieldCount);
}

#[test]
fn decode_rejects_bad_numbers() {
    assert_eq!(reason(b"/connect/abc/"), InvalidReason::InvalidSession);
    assert_eq!(reason(b"/connect//"), InvalidReason::InvalidSession);
    assert_eq!(reason(b"/connect/-1/"), InvalidReason::InvalidSession);
    assert_eq!(reason(b"/connect/4294967296/"), InvalidReason::InvalidSession);
    assert_eq!(reason(b"/connect/+/"), InvalidReason::InvalidSession);
    assert_eq!(reason(b"/ack/1/x/"), InvalidReason::InvalidPosition);
    assert_eq!(reason(b"/ack/x/1/"), InvalidReason::InvalidSession);
    assert_eq!(reason(b"/data/1/99999999999/a/"), InvalidReason::InvalidPosition);
    assert_eq!(reason(b"/data/ 1/0/a/"), InvalidReason::InvalidSession);
}

#[test]
fn decode_accepts_sign_and_leading_zeros() {
    assert_eq!(decode(b"/connect/+5/").unwrap(), Message::Connect(5));
    assert_eq!(decode(b"/connect/0000000000000000000007/").unwrap(), Message::Connect(7));
    assert_eq!(decode(b"/connect/4294967295/").unwrap(), Message::Connect(u32::MAX));
}

#[test]
fn decode_rejects_unescaped_slash() {
    assert_eq!(reason(b"/data/1/0/a/b/"), InvalidReason::UnescapedSlash);
    assert_eq!(reason(b"/data/1/0//x/"), InvalidReason::UnescapedSlash);
    assert_eq!(
        reason(br"/data/1805784010/41/illegal data/has too many/parts/"),
        InvalidReason::UnescapedSlash
    );
}

#[test]
fn decode_keeps_lone_backslash() {
    assert_eq!(
        decode(br"/data/1/0/a\nb/").unwrap(),
        Message::Data { session: 1, position: 0, data: r"a\nb".to_string() }
    );
    assert_eq!(
        decode(b"/data/1/0//").unwrap(),
        Message::Data { session: 1, position: 0, data: String::new() }
    );
}
