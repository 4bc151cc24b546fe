use std::str::FromStr;
use redis_server::protocol::RespObject;
use redis_server::protocol::RespObject::{
    Array, BulkString, Error, Integer, NullArray, NullBulkString, SimpleString,
};

fn round_trip(v: RespObject) {
    let bytes = v.serialize();
    assert_eq!(RespObject::parse(&bytes), Ok(v));
}

#[test]
fn round_trip_of_every_kind() {
    round_trip(SimpleString("OK".to_owned()));
    round_trip(Error("ERR bad".to_owned()));
    round_trip(Integer(0));
    round_trip(Integer(i64::MIN));
    round_trip(Integer(i64::MAX));
    round_trip(BulkString("foo\r\nbar".to_owned()));
    round_trip(BulkString("".to_owned()));
    round_trip(NullBulkString);
    round_trip(NullArray);
    round_trip(Array(vec![]));
    round_trip(Array(vec![
        Integer(-7),
        Array(vec![BulkString("x".to_owned()), NullArray]),
        NullBulkString,
        SimpleString("s".to_owned()),
    ]));
}

#[test]
fn canonical_bytes_are_written_back_unchanged() {
    let text = "*3\r\n$3\r\nset\r\n:-12\r\n*2\r\n+a\r\n$-1\r\n";
    let v = RespObject::parse(text.as_bytes()).unwrap();
    assert_eq!(v.serialize(), text.as_bytes().to_vec());
}

#[test]
fn bulk_length_counts_bytes() {
    let v = BulkString("héllo".to_owned());
    assert_eq!(v.to_string(), "$6\r\nhéllo\r\n");
    round_trip(v);
}

#[test]
fn trailing_bytes_are_ignored() {
    assert_eq!(RespObject::parse(b"+OK\r\n+ignored\r\n"), Ok(SimpleString("OK".to_owned())));
}

#[test]
fn malformed_input_is_an_error_not_a_crash() {
    let bad: [&[u8]; 14] = [
        b"",
        b"+",
        b"+OK\r",
        b"+OK\rX",
        b"$-2\r\n",
        b"$5\r\nabc\r\n",
        b"$3\r\nabcde",
        b"*2\r\n+a\r\n",
        b":\r\n",
        b":+\r\n",
        b":9223372036854775808\r\n",
        b"$x\r\n",
        b"$2\r\n\xff\xfe\r\n",
        b"$1\r\n\xc3\xa9\r\n",
    ];
    for input in bad.iter() {
        assert!(RespObject::parse(input).is_err(), "accepted {:?}", input);
    }
}

#[test]
fn integer_edges() {
    assert_eq!(RespObject::parse(b":-9223372036854775808\r\n"), Ok(Integer(i64::MIN)));
    assert_eq!(RespObject::parse(b":007\r\n"), Ok(Integer(7)));
    assert!(RespObject::parse(b":--1\r\n").is_err());
    assert!(RespObject::parse(b":1 \r\n").is_err());
}

#[test]
fn parse_error_carries_a_message() {
    let e = RespObject::parse(b"?x\r\n").unwrap_err();
    assert!(!e.message.is_empty());
}

#[test]
fn parse_errors_quote_the_offending_text() {
    assert_eq!(
        RespObject::parse(b"?What is this\r\n").unwrap_err().message,
        "Unexpected RESP type character: '?'"
    );
    assert_eq!(
        RespObject::parse(b":NotANumber\r\n").unwrap_err().message,
        "Failed to parse integer 'NotANumber'"
    );
    assert_eq!(
        RespObject::parse(b"$abc\r\n").unwrap_err().message,
        "Failed to parse length 'abc'"
    );
    assert_eq!(
        RespObject::parse(b"*-5\r\n").unwrap_err().message,
        "Expected length to be -1 or non-negative, got: '-5'"
    );
    assert_eq!(
        RespObject::parse(b"$3\r\nabcXY").unwrap_err().message,
        "Expected \\r\\n but got something else: XY"
    );
    assert_eq!(
        RespObject::parse(b"+OK").unwrap_err().message,
        "Unexpected end of input"
    );
}

#[test]
fn text_round_trip_through_from_str() {
    let v = Array(vec![
        BulkString("a\r\nb".to_owned()),
        SimpleString("héllo".to_owned()),
        Integer(-3),
        NullArray,
    ]);
    let text = v.to_string();
    let back = RespObject::from_str(&text).unwrap();
    assert_eq!(back.to_string(), text);
    assert_eq!(back, v);
}
