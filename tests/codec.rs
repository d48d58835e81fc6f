use miniredis::decimal::{parse_decimal, push_decimal};
use miniredis::decode::{read_frame, FrameParseError};
use miniredis::resp::{encode, RESP};

fn bulk(b: &[u8]) -> RESP {
    RESP::BulkStrings(Some(b.to_vec()))
}

fn array(items: Vec<RESP>) -> RESP {
    RESP::Arrays(Some(items))
}

#[test]
fn encodes_each_kind() {
    assert_eq!(encode(&RESP::SimpleStrings("OK".to_string())), b"+OK\r\n".to_vec());
    assert_eq!(encode(&RESP::Errors("ERR x".to_string())), b"-ERR x\r\n".to_vec());
    assert_eq!(encode(&RESP::Integers(42)), b":42\r\n".to_vec());
    assert_eq!(encode(&RESP::Integers(-7)), b":-7\r\n".to_vec());
    assert_eq!(encode(&RESP::Integers(0)), b":0\r\n".to_vec());
    assert_eq!(encode(&bulk(b"bar")), b"$3\r\nbar\r\n".to_vec());
    assert_eq!(encode(&bulk(b"")), b"$0\r\n\r\n".to_vec());
    assert_eq!(encode(&RESP::BulkStrings(None)), b"$-1\r\n".to_vec());
    assert_eq!(encode(&array(vec![])), b"*0\r\n".to_vec());
    assert_eq!(encode(&RESP::Arrays(None)), b"*-1\r\n".to_vec());
    assert_eq!(
        encode(&array(vec![bulk(b"GET"), bulk(b"foo")])),
        b"*2\r\n$3\r\nGET\r\n$3\r\nfoo\r\n".to_vec()
    );
}

#[test]
fn encodes_integer_extremes() {
    assert_eq!(encode(&RESP::Integers(i64::MIN)), b":-9223372036854775808\r\n".to_vec());
    assert_eq!(encode(&RESP::Integers(i64::MAX)), b":9223372036854775807\r\n".to_vec());
}

#[test]
fn encodes_non_ascii_text() {
    assert_eq!(
        encode(&RESP::SimpleStrings("h\u{e9}".to_string())),
        vec![b'+', b'h', 0xc3, 0xa9, b'\r', b'\n']
    );
}

#[test]
fn decimal_text_and_parse() {
    let mut out = Vec::new();
    push_decimal(&mut out, -1234);
    assert_eq!(out, b"-1234".to_vec());
    assert_eq!(parse_decimal(b"17"), Some(17));
    assert_eq!(parse_decimal(b"+17"), Some(17));
    assert_eq!(parse_decimal(b"-0"), Some(0));
    assert_eq!(parse_decimal(b"007"), Some(7));
    assert_eq!(parse_decimal(b"-9223372036854775808"), Some(i64::MIN));
    assert_eq!(parse_decimal(b"9223372036854775807"), Some(i64::MAX));
    assert_eq!(parse_decimal(b"9223372036854775808"), None);
    assert_eq!(parse_decimal(b"99999999999999999999999"), None);
    assert_eq!(parse_decimal(b""), None);
    assert_eq!(parse_decimal(b"-"), None);
    assert_eq!(parse_decimal(b"1a"), None);
    assert_eq!(parse_decimal(b" 1"), None);
}

#[test]
fn decodes_each_kind() {
    assert_eq!(read_frame(b"+OK\r\n", 0), Ok((RESP::SimpleStrings("OK".to_string()), 5)));
    assert_eq!(read_frame(b"-ERR bad\r\n", 0), Ok((RESP::Errors("ERR bad".to_string()), 10)));
    assert_eq!(read_frame(b":-12\r\n", 0), Ok((RESP::Integers(-12), 6)));
    assert_eq!(read_frame(b"$3\r\nbar\r\n", 0), Ok((bulk(b"bar"), 9)));
    assert_eq!(read_frame(b"$0\r\n\r\n", 0), Ok((bulk(b""), 6)));
    assert_eq!(read_frame(b"$-1\r\n", 0), Ok((RESP::BulkStrings(None), 5)));
    assert_eq!(read_frame(b"*0\r\n", 0), Ok((array(vec![]), 4)));
    assert_eq!(read_frame(b"*-1\r\n", 0), Ok((RESP::Arrays(None), 5)));
}

#[test]
fn decodes_at_a_position_and_leaves_the_rest() {
    let buf = b"+A\r\n:5\r\n+tail";
    assert_eq!(read_frame(buf, 4), Ok((RESP::Integers(5), 8)));
    assert_eq!(read_frame(buf, 8), Err(FrameParseError::IncomingError));
}

#[test]
fn decodes_binary_payload_with_crlf_inside() {
    let buf = b"$4\r\n\r\n\x00\xff\r\n";
    assert_eq!(read_frame(buf, 0), Ok((bulk(b"\r\n\x00\xff"), 10)));
}

#[test]
fn decodes_nested_arrays() {
    let buf = b"*2\r\n*1\r\n:1\r\n*-1\r\n";
    assert_eq!(
        read_frame(buf, 0),
        Ok((array(vec![array(vec![RESP::Integers(1)]), RESP::Arrays(None)]), buf.len()))
    );
}

#[test]
fn incomplete_frames() {
    assert_eq!(read_frame(b"", 0), Err(FrameParseError::IncomingError));
    assert_eq!(read_frame(b"+OK", 0), Err(FrameParseError::IncomingError));
    assert_eq!(read_frame(b"+OK\r", 0), Err(FrameParseError::IncomingError));
    assert_eq!(read_frame(b"$3\r\nba", 0), Err(FrameParseError::IncomingError));
    assert_eq!(read_frame(b"$3\r\nbar\r", 0), Err(FrameParseError::IncomingError));
    assert_eq!(read_frame(b"*2\r\n$3\r\nGET\r\n", 0), Err(FrameParseError::IncomingError));
    assert_eq!(read_frame(b":abc", 0), Err(FrameParseError::IncomingError));
}

#[test]
fn malformed_frames() {
    assert_eq!(read_frame(b"?x\r\n", 0), Err(FrameParseError::ProtocolError));
    assert_eq!(read_frame(b":12a\r\n", 0), Err(FrameParseError::ProtocolError));
    assert_eq!(read_frame(b"$x\r\n", 0), Err(FrameParseError::ProtocolError));
    assert_eq!(read_frame(b"*\r\n", 0), Err(FrameParseError::ProtocolError));
    assert_eq!(read_frame(b"$3\r\nbarXY", 0), Err(FrameParseError::ProtocolError));
    assert_eq!(read_frame(b"+\xff\xfe\r\n", 0), Err(FrameParseError::InvalidUtf8Error));
    assert_eq!(read_frame(b"-\xc3\r\n", 0), Err(FrameParseError::InvalidUtf8Error));
    assert_eq!(read_frame(b"*2\r\n:1\r\n?\r\n", 0), Err(FrameParseError::ProtocolError));
}

#[test]
fn round_trip_on_values() {
    let values = vec![
        RESP::SimpleStrings("PONG".to_string()),
        RESP::SimpleStrings(String::new()),
        RESP::Errors("ERR something".to_string()),
        RESP::Integers(-5),
        RESP::Integers(i64::MIN),
        bulk(b"value"),
        bulk(b""),
        RESP::BulkStrings(None),
        array(vec![]),
        RESP::Arrays(None),
        array(vec![bulk(b"a"), array(vec![RESP::Integers(3), RESP::BulkStrings(None)]), RESP::Errors("e".to_string())]),
    ];
    for v in values {
        let bytes = encode(&v);
        let (decoded, end) = read_frame(&bytes, 0).unwrap();
        assert_eq!(end, bytes.len());
        assert_eq!(encode(&decoded), bytes);
        assert_eq!(decoded, v);
    }
}

#[test]
fn incremental_delivery_of_an_array() {
    let bytes = b"*3\r\n$3\r\nSET\r\n$3\r\nfoo\r\n$-1\r\n".to_vec();
    for k in 0..bytes.len() {
        assert_eq!(read_frame(&bytes[..k], 0), Err(FrameParseError::IncomingError), "prefix {}", k);
    }
    assert_eq!(
        read_frame(&bytes, 0),
        Ok((array(vec![bulk(b"SET"), bulk(b"foo"), RESP::BulkStrings(None)]), bytes.len()))
    );
}
