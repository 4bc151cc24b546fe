use redis_server::protocol::RespObject;
use redis_server::protocol::RespObject::{
    Array, BulkString, Error, Integer, NullArray, NullBulkString, SimpleString,
};
use std::str::FromStr;

#[test]
fn parse_simple_string() {
    let result = RespObject::from_str("+Hello, World\r\n");
    assert_eq!(result, Ok(SimpleString("Hello, World".to_owned())));
}

#[test]
fn fail_parse_simple_string_on_missing_crlf() {
    let result = RespObject::from_str("+Hello, World");
    assert!(result.is_err());
}

#[test]
fn parse_error() {
    let result = RespObject::from_str("-Error message\r\n");
    assert_eq!(result, Ok(Error("Error message".to_owned())));
}

#[test]
fn parse_integer() {
    let result = RespObject::from_str(":42\r\n");
    assert_eq!(result, Ok(Integer(42)));
}

#[test]
fn parse_integer_with_explicit_plus_sign() {
    let result = RespObject::from_str(":+42\r\n");
    assert_eq!(result, Ok(Integer(42)));
}

#[test]
fn parse_negative_integer() {
    let result = RespObject::from_str(":-10\r\n");
    assert_eq!(result, Ok(Integer(-10)));
}

#[test]
fn fail_parse_integer_on_missing_content() {
    let result = RespObject::from_str(":\r\n");
    assert!(result.is_err());
}

#[test]
fn fail_parse_integer_on_non_numerical_input() {
    let result = RespObject::from_str(":NotANumber\r\n");
    assert!(result.is_err());
}

#[test]
fn parse_empty_bulk_string() {
    let result = RespObject::from_str("$0\r\n\r\n");
    assert_eq!(result, Ok(BulkString("".to_owned())));
}

#[test]
fn parse_bulk_string() {
    let result = RespObject::from_str("$6\r\nfoobar\r\n");
    assert_eq!(result, Ok(BulkString("foobar".to_owned())));
}

#[test]
fn parse_multiline_bulk_string() {
    let result = RespObject::from_str("$8\r\nfoo\r\nbar\r\n");
    assert_eq!(result, Ok(BulkString("foo\r\nbar".to_owned())));
}

#[test]
fn parse_null_bulk_string() {
    let result = RespObject::from_str("$-1\r\n");
    assert_eq!(result, Ok(NullBulkString));
}

#[test]
fn parse_empty_array() {
    let result = RespObject::from_str("*0\r\n");
    assert_eq!(result, Ok(Array(vec![])));
}

#[test]
fn parse_array_example1() {
    let result = RespObject::from_str("*1\r\n$4\r\nping\r\n");
    assert_eq!(result, Ok(Array(vec![BulkString("ping".to_owned())])));
}

#[test]
fn parse_array_example2() {
    let result = RespObject::from_str("*2\r\n$4\r\necho\r\n$11\r\nhello world\r\n");
    assert_eq!(
        result,
        Ok(Array(vec![
            BulkString("echo".to_owned()),
            BulkString("hello world".to_owned())
        ]))
    );
}

#[test]
fn parse_array_example3() {
    let result = RespObject::from_str("*2\r\n$3\r\nget\r\n$3\r\nkey\r\n");
    assert_eq!(
        result,
        Ok(Array(vec![
            BulkString("get".to_owned()),
            BulkString("key".to_owned())
        ]))
    );
}

#[test]
fn parse_null_array() {
    let result = RespObject::from_str("*-1\r\n");
    assert_eq!(result, Ok(NullArray));
}

#[test]
fn fail_parse_on_unexpected_type_indicator() {
    let result = RespObject::from_str("?What is this\r\n");
    assert!(result.is_err());
}

#[test]
fn write_simple_string() {
    let result = SimpleString("Hello, World".to_owned()).to_string();
    assert_eq!(result, "+Hello, World\r\n");
}

#[test]
fn write_error() {
    let result = Error("Error message".to_owned()).to_string();
    assert_eq!(result, "-Error message\r\n");
}

#[test]
fn write_integer() {
    let result = Integer(42).to_string();
    assert_eq!(result, ":42\r\n");
}

#[test]
fn write_negative_integer() {
    let result = Integer(-10).to_string();
    assert_eq!(result, ":-10\r\n");
}

#[test]
fn write_empty_bulk_string() {
    let result = BulkString("".to_owned()).to_string();
    assert_eq!(result, "$0\r\n\r\n");
}

#[test]
fn write_bulk_string() {
    let result = BulkString("foobar".to_owned()).to_string();
    assert_eq!(result, "$6\r\nfoobar\r\n");
}

#[test]
fn write_multiline_bulk_string() {
    let result = BulkString("foo\r\nbar".to_owned()).to_string();
    assert_eq!(result, "$8\r\nfoo\r\nbar\r\n");
}

#[test]
fn write_null_bulk_string() {
    let result = NullBulkString.to_string();
    assert_eq!(result, "$-1\r\n");
}

#[test]
fn write_empty_array() {
    let result = Array(vec![]).to_string();
    assert_eq!(result, "*0\r\n");
}

#[test]
fn write_array_example1() {
    let result = Array(vec![BulkString("ping".to_owned())]).to_string();
    assert_eq!(result, "*1\r\n$4\r\nping\r\n");
}

#[test]
fn write_array_example2() {
    let result = Array(vec![
        BulkString("echo".to_owned()),
        BulkString("hello world".to_owned()),
    ])
    .to_string();
    assert_eq!(result, "*2\r\n$4\r\necho\r\n$11\r\nhello world\r\n");
}

#[test]
fn write_array_example3() {
    let result = Array(vec![
        BulkString("get".to_owned()),
        BulkString("key".to_owned()),
    ])
    .to_string();
    assert_eq!(result, "*2\r\n$3\r\nget\r\n$3\r\nkey\r\n");
}

#[test]
fn write_null_array() {
    let result = NullArray.to_string();
    assert_eq!(result, "*-1\r\n");
}
