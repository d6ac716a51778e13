use resp_kv::protocol::{DecodeError, RespValue};

fn round_trip(v: &RespValue) -> Vec<u8> {
    let bytes = v.to_bytes();
    match RespValue::from_stream(&bytes) {
        Ok(Some((back, used))) => {
            assert_eq!(used, bytes.len());
            back.to_bytes()
        }
        other => panic!("no value decoded: {:?}", other),
    }
}

fn decoded(input: &[u8]) -> RespValue {
    match RespValue::from_stream(input) {
        Ok(Some((v, _))) => v,
        other => panic!("no value decoded: {:?}", other),
    }
}

#[test]
fn decodes_to_equal_values() {
    assert_eq!(decoded(b"+PING\r\n"), RespValue::SimpleString(b"PING".to_vec()));
    assert_eq!(decoded(b":-3\r\n"), RespValue::Integer(-3));
    assert_eq!(
        decoded(b"*2\r\n$1\r\na\r\n$-1\r\n"),
        RespValue::Array(vec![RespValue::BulkString(b"a".to_vec()), RespValue::Null])
    );
}

#[test]
fn encodes_simple_string() {
    assert_eq!(RespValue::SimpleString(b"OK".to_vec()).to_bytes(), b"+OK\r\n".to_vec());
}

#[test]
fn encodes_error() {
    assert_eq!(RespValue::Error(b"ERR x".to_vec()).to_bytes(), b"-ERR x\r\n".to_vec());
}

#[test]
fn encodes_integers() {
    assert_eq!(RespValue::Integer(0).to_bytes(), b":0\r\n".to_vec());
    assert_eq!(RespValue::Integer(1234).to_bytes(), b":1234\r\n".to_vec());
    assert_eq!(RespValue::Integer(-7).to_bytes(), b":-7\r\n".to_vec());
    assert_eq!(
        RespValue::Integer(i64::MIN).to_bytes(),
        b":-9223372036854775808\r\n".to_vec()
    );
    assert_eq!(
        RespValue::Integer(i64::MAX).to_bytes(),
        b":9223372036854775807\r\n".to_vec()
    );
}

#[test]
fn encodes_bulk_string_binary_safe() {
    assert_eq!(
        RespValue::BulkString(b"a\r\nb".to_vec()).to_bytes(),
        b"$4\r\na\r\nb\r\n".to_vec()
    );
    assert_eq!(RespValue::BulkString(Vec::new()).to_bytes(), b"$0\r\n\r\n".to_vec());
}

#[test]
fn encodes_null_and_arrays() {
    assert_eq!(RespValue::Null.to_bytes(), b"$-1\r\n".to_vec());
    let a = RespValue::Array(vec![
        RespValue::BulkString(b"GET".to_vec()),
        RespValue::Integer(5),
        RespValue::Array(Vec::new()),
    ]);
    assert_eq!(a.to_bytes(), b"*3\r\n$3\r\nGET\r\n:5\r\n*0\r\n".to_vec());
}

#[test]
fn round_trips_every_variant() {
    let values = vec![
        RespValue::SimpleString(b"hello world".to_vec()),
        RespValue::Error(b"ERR bad".to_vec()),
        RespValue::Integer(-42),
        RespValue::Integer(i64::MIN),
        RespValue::BulkString(vec![0xde, 0xad, 0xbe, 0xef, b'\r', b'\n']),
        RespValue::Null,
        RespValue::Array(vec![
            RespValue::Null,
            RespValue::Array(vec![RespValue::Integer(1), RespValue::SimpleString(Vec::new())]),
            RespValue::BulkString(b"x".to_vec()),
        ]),
    ];
    for v in &values {
        assert_eq!(round_trip(v), v.to_bytes());
    }
}

#[test]
fn decodes_nested_array_structure() {
    let input = b"*2\r\n$3\r\nfoo\r\n*1\r\n:9\r\n";
    match RespValue::from_stream(input) {
        Ok(Some((RespValue::Array(items), used))) => {
            assert_eq!(used, input.len());
            assert_eq!(items.len(), 2);
            assert!(matches!(&items[0], RespValue::BulkString(b) if b == b"foo"));
            assert!(matches!(&items[1], RespValue::Array(inner)
                if inner.len() == 1 && matches!(inner[0], RespValue::Integer(9))));
        }
        other => panic!("unexpected: {:?}", other),
    }
}

#[test]
fn empty_stream_is_clean_end() {
    assert!(matches!(RespValue::from_stream(b""), Ok(None)));
}

#[test]
fn decoding_stops_after_one_value() {
    match RespValue::from_stream(b":1\r\n:2\r\n") {
        Ok(Some((RespValue::Integer(1), 4))) => {}
        other => panic!("unexpected: {:?}", other),
    }
    match RespValue::decode_from(b":1\r\n:2\r\n", 4, true) {
        Ok(Some((RespValue::Integer(2), 8))) => {}
        other => panic!("unexpected: {:?}", other),
    }
}

#[test]
fn bulk_without_trailer_is_an_error() {
    assert_eq!(
        RespValue::from_stream(b"$5\r\nhello").unwrap_err().0,
        DecodeError::UnexpectedEnd
    );
}

#[test]
fn bulk_payload_may_hold_crlf() {
    match RespValue::from_stream(b"$4\r\n\r\n\r\n\r\n") {
        Ok(Some((RespValue::BulkString(b), 10))) => assert_eq!(b, b"\r\n\r\n".to_vec()),
        other => panic!("unexpected: {:?}", other),
    }
}

#[test]
fn trailer_bytes_are_not_validated() {
    match RespValue::from_stream(b"$2\r\nhiXY") {
        Ok(Some((RespValue::BulkString(b), 8))) => assert_eq!(b, b"hi".to_vec()),
        other => panic!("unexpected: {:?}", other),
    }
}

#[test]
fn truncated_line_is_an_error() {
    assert_eq!(RespValue::from_stream(b"+OK").unwrap_err().0, DecodeError::UnexpectedEnd);
    assert_eq!(RespValue::from_stream(b"+").unwrap_err().0, DecodeError::UnexpectedEnd);
}

#[test]
fn truncated_array_is_an_error() {
    assert_eq!(
        RespValue::from_stream(b"*2\r\n:1\r\n").unwrap_err().0,
        DecodeError::UnexpectedEnd
    );
}

#[test]
fn huge_declared_sizes_are_errors() {
    assert_eq!(
        RespValue::from_stream(b"$9223372036854775807\r\nab\r\n").unwrap_err(),
        (DecodeError::InvalidLength, 22)
    );
    assert_eq!(
        RespValue::from_stream(b"*9223372036854775807\r\n:1\r\n").unwrap_err(),
        (DecodeError::InvalidLength, 22)
    );
    assert_eq!(
        RespValue::from_stream(b"$536870913\r\n").unwrap_err(),
        (DecodeError::InvalidLength, 12)
    );
    assert_eq!(
        RespValue::from_stream(b"*1048577\r\n").unwrap_err(),
        (DecodeError::InvalidLength, 10)
    );
}

#[test]
fn sizes_at_the_limits_are_accepted() {
    assert_eq!(
        RespValue::from_stream(b"$536870912\r\nab").unwrap_err(),
        (DecodeError::UnexpectedEnd, 14)
    );
    assert_eq!(
        RespValue::from_stream(b"*1048576\r\n:1\r\n").unwrap_err(),
        (DecodeError::UnexpectedEnd, 14)
    );
}

#[test]
fn failures_report_where_decoding_resumes() {
    assert_eq!(RespValue::from_stream(b":12a\r\n:1\r\n").unwrap_err(), (DecodeError::InvalidInteger, 6));
    assert_eq!(RespValue::from_stream(b"$-2\r\n:1\r\n").unwrap_err(), (DecodeError::InvalidLength, 5));
    assert_eq!(RespValue::from_stream(b"+\xff\r\n:1\r\n").unwrap_err(), (DecodeError::InvalidText, 4));
    assert_eq!(RespValue::from_stream(b"?x\r\n:1\r\n").unwrap_err(), (DecodeError::UnknownType(b'?'), 4));
    assert_eq!(
        RespValue::from_stream(b"*2\r\n:1\r\n:zz\r\n:5\r\n").unwrap_err(),
        (DecodeError::InvalidInteger, 13)
    );
    assert_eq!(RespValue::from_stream(b"$5\r\nhello").unwrap_err(), (DecodeError::UnexpectedEnd, 9));
}

#[test]
fn unknown_type_is_decided_on_the_first_byte() {
    assert_eq!(RespValue::from_stream(b"?").unwrap_err(), (DecodeError::UnknownType(b'?'), 1));
    assert_eq!(RespValue::from_stream(b"?abc").unwrap_err(), (DecodeError::UnknownType(b'?'), 4));
}

#[test]
fn values_compare_and_clone() {
    let a = RespValue::Array(vec![
        RespValue::BulkString(b"x".to_vec()),
        RespValue::Array(vec![RespValue::Integer(3), RespValue::Null]),
    ]);
    let b = a.clone();
    assert_eq!(a, b);
    assert_eq!(a.to_bytes(), b.to_bytes());
    let c = RespValue::Array(vec![
        RespValue::BulkString(b"x".to_vec()),
        RespValue::Array(vec![RespValue::Integer(4), RespValue::Null]),
    ]);
    assert_ne!(a, c);
    assert_ne!(RespValue::SimpleString(b"a".to_vec()), RespValue::Error(b"a".to_vec()));
    assert_ne!(RespValue::BulkString(b"a".to_vec()), RespValue::BulkString(b"ab".to_vec()));
    assert_eq!(RespValue::Null, RespValue::Null);
}

#[test]
fn bad_integer_is_an_error() {
    assert_eq!(RespValue::from_stream(b":12a\r\n").unwrap_err().0, DecodeError::InvalidInteger);
    assert_eq!(RespValue::from_stream(b":\r\n").unwrap_err().0, DecodeError::InvalidInteger);
    assert_eq!(RespValue::from_stream(b":-\r\n").unwrap_err().0, DecodeError::InvalidInteger);
    assert_eq!(
        RespValue::from_stream(b":9223372036854775808\r\n").unwrap_err().0,
        DecodeError::InvalidInteger
    );
    assert_eq!(RespValue::from_stream(b"$x\r\n").unwrap_err().0, DecodeError::InvalidInteger);
}

#[test]
fn integer_bounds_and_signs_parse() {
    match RespValue::from_stream(b":-9223372036854775808\r\n") {
        Ok(Some((RespValue::Integer(n), _))) => assert_eq!(n, i64::MIN),
        other => panic!("unexpected: {:?}", other),
    }
    match RespValue::from_stream(b":+17\r\n") {
        Ok(Some((RespValue::Integer(n), _))) => assert_eq!(n, 17),
        other => panic!("unexpected: {:?}", other),
    }
}

#[test]
fn negative_length_below_null_is_an_error() {
    assert_eq!(RespValue::from_stream(b"$-2\r\n").unwrap_err().0, DecodeError::InvalidLength);
    assert_eq!(RespValue::from_stream(b"*-5\r\n").unwrap_err().0, DecodeError::InvalidLength);
}

#[test]
fn null_bulk_and_null_array() {
    assert!(matches!(RespValue::from_stream(b"$-1\r\n"), Ok(Some((RespValue::Null, 5)))));
    assert!(matches!(RespValue::from_stream(b"*-1\r\n"), Ok(Some((RespValue::Null, 5)))));
}

#[test]
fn invalid_utf8_line_is_an_error() {
    assert_eq!(RespValue::from_stream(b"+\xff\r\n").unwrap_err().0, DecodeError::InvalidText);
    assert_eq!(RespValue::from_stream(b"-\xc3\r\n").unwrap_err().0, DecodeError::InvalidText);
}

#[test]
fn unknown_type_byte_is_an_error() {
    assert_eq!(RespValue::from_stream(b"!x\r\n").unwrap_err().0, DecodeError::UnknownType(b'!'));
}

#[test]
fn unterminated_unknown_type_waits_for_more_input() {
    assert_eq!(
        RespValue::decode_from(b"?x", 0, false).unwrap_err(),
        (DecodeError::UnexpectedEnd, 2)
    );
    assert_eq!(
        RespValue::decode_from(b"?x", 0, true).unwrap_err(),
        (DecodeError::UnknownType(b'?'), 2)
    );
    assert_eq!(
        RespValue::decode_from(b"?x\r\n", 0, false).unwrap_err(),
        (DecodeError::UnknownType(b'?'), 4)
    );
}

#[test]
fn non_ascii_utf8_text_decodes() {
    assert_eq!(
        RespValue::from_stream("+caf\u{e9}\r\n".as_bytes()).unwrap().unwrap().0,
        RespValue::SimpleString("caf\u{e9}".as_bytes().to_vec())
    );
}

fn nested(levels: usize) -> Vec<u8> {
    let mut v = Vec::new();
    for _ in 0..levels {
        v.extend_from_slice(b"*1\r\n");
    }
    v.extend_from_slice(b":1\r\n");
    v
}

#[test]
fn nesting_up_to_the_limit_decodes() {
    let input = nested(128);
    match RespValue::from_stream(&input) {
        Ok(Some((v, used))) => {
            assert_eq!(used, input.len());
            assert_eq!(v.to_bytes(), input);
        }
        other => panic!("unexpected: {:?}", other),
    }
}

#[test]
fn nesting_beyond_the_limit_is_an_error() {
    assert_eq!(
        RespValue::from_stream(&nested(129)).unwrap_err(),
        (DecodeError::TooDeep, 129 * 4)
    );
    assert_eq!(
        RespValue::from_stream(&nested(100_000)).unwrap_err(),
        (DecodeError::TooDeep, 129 * 4)
    );
}
