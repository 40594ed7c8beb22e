use bytes::BytesMut;
use resp_codec::resp::RespError;
use resp_codec::resp::types::RespType;

#[test]
fn decode_simple_string_literal() {
    let buf = BytesMut::from(&b"+PONG\r\n"[..]);
    let (value, consumed) = RespType::parse(buf).unwrap();
    assert_eq!(consumed, 7);
    match value {
        RespType::SimpleString(s) => assert_eq!(s, "PONG"),
        _ => panic!("expected a simple string"),
    }
}

#[test]
fn decode_bulk_string_literal() {
    let buf = BytesMut::from(&b"$3\r\nfoo\r\n"[..]);
    let (value, consumed) = RespType::parse(buf).unwrap();
    assert_eq!(consumed, 9);
    match value {
        RespType::BulkString(s) => assert_eq!(s, "foo"),
        _ => panic!("expected a bulk string"),
    }
}

#[test]
fn encode_simple_error_literal() {
    let value = RespType::SimpleError(String::from("ERR unknown command"));
    let wire = value.to_bytes();
    assert_eq!(&wire[..], b"-ERR unknown command\r\n");
}

#[test]
fn encode_simple_string_exact() {
    let value = RespType::SimpleString(String::from("OK"));
    let wire = value.to_bytes();
    assert_eq!(&wire[..], b"+OK\r\n");
}

#[test]
fn encode_bulk_string_exact() {
    let value = RespType::BulkString(String::from("foo"));
    let wire = value.to_bytes();
    assert_eq!(&wire[..], b"$3\r\nfoo\r\n");
}

#[test]
fn encode_bulk_string_empty() {
    let value = RespType::BulkString(String::new());
    let wire = value.to_bytes();
    assert_eq!(&wire[..], b"$0\r\n\r\n");
}

#[test]
fn decode_empty_buffer_fails() {
    let buf = BytesMut::new();
    match RespType::parse(buf) {
        Err(RespError::Other(msg)) => assert_eq!(msg, "Invalid RESP data type"),
        _ => panic!("expected Other"),
    }
}

#[test]
fn decode_unknown_discriminator_fails() {
    let buf = BytesMut::from(&b"*1\r\n$4\r\nPING\r\n"[..]);
    match RespType::parse(buf) {
        Err(RespError::Other(msg)) => assert_eq!(msg, "Invalid RESP data type"),
        _ => panic!("expected Other"),
    }
}

#[test]
fn decode_missing_terminator_fails() {
    let buf = BytesMut::from(&b"+OK"[..]);
    match RespType::parse(buf) {
        Err(RespError::InvalidSimpleString(msg)) => {
            assert_eq!(msg, "Invalid value for simple string")
        }
        _ => panic!("expected InvalidSimpleString"),
    }
}

#[test]
fn decode_bulk_length_mismatch_fails() {
    let buf = BytesMut::from(&b"$5\r\nhi\r\n"[..]);
    match RespType::parse(buf) {
        Err(RespError::InvalidBulkString(msg)) => {
            assert_eq!(msg, "Invalid bulk string length")
        }
        _ => panic!("expected InvalidBulkString"),
    }
}

#[test]
fn decode_simple_string_round_trip() {
    let value = RespType::SimpleString(String::from("hello world"));
    let wire = value.to_bytes();
    let len = wire.len();
    let buf = BytesMut::from(&wire[..]);
    let (decoded, consumed) = RespType::parse(buf).unwrap();
    assert_eq!(consumed, len);
    match decoded {
        RespType::SimpleString(s) => assert_eq!(s, "hello world"),
        _ => panic!("expected a simple string"),
    }
}

#[test]
fn decode_bulk_string_round_trip() {
    let value = RespType::BulkString(String::from("abc"));
    let wire = value.to_bytes();
    let len = wire.len();
    let buf = BytesMut::from(&wire[..]);
    let (decoded, consumed) = RespType::parse(buf).unwrap();
    assert_eq!(consumed, len);
    match decoded {
        RespType::BulkString(s) => assert_eq!(s, "abc"),
        _ => panic!("expected a bulk string"),
    }
}

#[test]
fn decode_bulk_overruns_buffer_when_terminator_missing() {
    // Declared length 1 leaves the payload one byte short of the buffer's
    // end; the decoder accepts the frame and charges for a terminator that
    // is not there, consuming 7 bytes of a 6-byte buffer.
    let buf = BytesMut::from(&b"$1\r\nab"[..]);
    let (value, consumed) = RespType::parse(buf).unwrap();
    assert_eq!(consumed, 7);
    match value {
        RespType::BulkString(s) => assert_eq!(s, "a"),
        _ => panic!("expected a bulk string"),
    }
}

#[test]
fn decode_bulk_exactly_filling_buffer_fails() {
    // The payload would run to the buffer's exact end, leaving no room at
    // all for the terminator: rejected as a length error.
    let buf = BytesMut::from(&b"$2\r\nhi"[..]);
    match RespType::parse(buf) {
        Err(RespError::InvalidBulkString(msg)) => {
            assert_eq!(msg, "Invalid bulk string length")
        }
        _ => panic!("expected InvalidBulkString"),
    }
}

#[test]
fn decode_bulk_trailing_bytes_unchecked() {
    // The two bytes after the payload are consumed without being checked.
    let buf = BytesMut::from(&b"$2\r\nhiXY"[..]);
    let (value, consumed) = RespType::parse(buf).unwrap();
    assert_eq!(consumed, 8);
    match value {
        RespType::BulkString(s) => assert_eq!(s, "hi"),
        _ => panic!("expected a bulk string"),
    }
}

#[test]
fn decode_bulk_non_utf8_payload_fails() {
    let buf = BytesMut::from(&[b'$', b'2', 13, 10, 0xff, 0xfe, 13, 10][..]);
    match RespType::parse(buf) {
        Err(RespError::InvalidBulkString(msg)) => assert_eq!(msg, "Invalid bulk string"),
        _ => panic!("expected InvalidBulkString"),
    }
}

#[test]
fn decode_simple_non_utf8_fails() {
    let buf = BytesMut::from(&[b'+', 0xff, 13, 10][..]);
    match RespType::parse(buf) {
        Err(RespError::InvalidSimpleString(msg)) => {
            assert_eq!(msg, "Simple string value is not a valid UTF-8 string")
        }
        _ => panic!("expected InvalidSimpleString"),
    }
}

#[test]
fn encode_bulk_multibyte_payload_is_not_self_consistent() {
    // A bulk string's declared length counts characters, not bytes, so a
    // multi-byte payload produces a frame whose declared length falls short
    // of the payload: decoding it cuts the payload mid-character and fails.
    let value = RespType::BulkString(String::from("\u{e9}"));
    let wire = value.to_bytes();
    assert_eq!(&wire[..], b"$1\r\n\xc3\xa9\r\n");
    let buf = BytesMut::from(&wire[..]);
    match RespType::parse(buf) {
        Err(RespError::InvalidBulkString(msg)) => assert_eq!(msg, "Invalid bulk string"),
        _ => panic!("expected InvalidBulkString"),
    }
}

#[test]
fn read_till_crlf_finds_first_pair() {
    let buf = b"ab\r\ncd\r\n";
    let (data, len) = RespType::read_till_crlf(&buf[..]).unwrap();
    assert_eq!(data, b"ab");
    assert_eq!(len, 4);
}

#[test]
fn read_till_crlf_empty_line() {
    let buf = b"\r\nrest";
    let (data, len) = RespType::read_till_crlf(&buf[..]).unwrap();
    assert_eq!(data, b"");
    assert_eq!(len, 2);
}

#[test]
fn read_till_crlf_ignores_lone_cr_and_lf() {
    assert!(RespType::read_till_crlf(&b"a\rb\nc"[..]).is_none());
    assert!(RespType::read_till_crlf(&b""[..]).is_none());
    assert!(RespType::read_till_crlf(&b"abc"[..]).is_none());
}

#[test]
fn parse_usize_accepts_decimal() {
    assert_eq!(RespType::parse_usize_from_buf(&b"123"[..]).unwrap(), 123);
    assert_eq!(RespType::parse_usize_from_buf(&b"0"[..]).unwrap(), 0);
    assert_eq!(RespType::parse_usize_from_buf(&b"+7"[..]).unwrap(), 7);
}

#[test]
fn parse_usize_rejects_malformed() {
    for bad in [&b""[..], &b"+"[..], &b"12a"[..], &b"-1"[..], &b" 1"[..]] {
        match RespType::parse_usize_from_buf(bad) {
            Err(RespError::InvalidBulkString(msg)) => {
                assert_eq!(msg, "Invalid bulk string length")
            }
            _ => panic!("expected InvalidBulkString"),
        }
    }
}

#[test]
fn parse_usize_rejects_overflow() {
    match RespType::parse_usize_from_buf(&b"99999999999999999999999999"[..]) {
        Err(RespError::InvalidBulkString(msg)) => {
            assert_eq!(msg, "Invalid bulk string length")
        }
        _ => panic!("expected InvalidBulkString"),
    }
}

#[test]
fn parse_bulk_string_directly() {
    let buf = BytesMut::from(&b"$4\r\nPING\r\n"[..]);
    let (value, consumed) = RespType::parse_bulk_string(buf).unwrap();
    assert_eq!(consumed, 10);
    match value {
        RespType::BulkString(s) => assert_eq!(s, "PING"),
        _ => panic!("expected a bulk string"),
    }
}

#[test]
fn parse_simple_string_directly() {
    let buf = BytesMut::from(&b"+OK\r\n"[..]);
    let (value, consumed) = RespType::parse_simple_string(buf).unwrap();
    assert_eq!(consumed, 5);
    match value {
        RespType::SimpleString(s) => assert_eq!(s, "OK"),
        _ => panic!("expected a simple string"),
    }
}

#[test]
fn error_message_forwarded_verbatim() {
    let errors = [
        RespError::InvalidBulkString(String::from("a bulk reason")),
        RespError::InvalidSimpleString(String::from("a simple reason")),
        RespError::Other(String::from("another reason")),
    ];
    let expected = ["a bulk reason", "a simple reason", "another reason"];
    for (err, want) in errors.iter().zip(expected.iter()) {
        assert_eq!(err.message(), want);
    }
}

#[test]
fn consumed_never_exceeds_buffer_except_bulk_overrun() {
    let frames: [&[u8]; 4] = [b"+PONG\r\n", b"$3\r\nfoo\r\n", b"$0\r\n\r\n", b"+\r\n"];
    for frame in frames {
        let buf = BytesMut::from(frame);
        let (_, consumed) = RespType::parse(buf).unwrap();
        assert!(consumed <= frame.len());
    }
}
