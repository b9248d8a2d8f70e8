use bytes::BytesMut;
use simple_redis::{
    BulkString, RespArray, RespDouble, RespEncoder, RespFrame, RespMap, RespNull, RespNullArray,
    RespNullBulkString, RespSet, SimpleError, SimpleString,
};

/// A double written the way the library reads it: shortest digits, then its
/// decimal exponent.
fn double(x: f64) -> RespFrame {
    let mut buf = BytesMut::from(format!(",{:e}\r\n", x).as_str());
    RespFrame::Double(RespDouble::decode(&mut buf).unwrap())
}

#[test]
fn test_simple_string_encode() {
    let s = RespFrame::SimpleString(SimpleString::new("hello"));
    assert_eq!(s.encode(), b"+hello\r\n");
}

#[test]
fn test_simple_error_encode() {
    let s = RespFrame::Error(SimpleError::new("error"));
    assert_eq!(s.encode(), b"-error\r\n");
}

#[test]
fn test_integer_encode() {
    let s = RespFrame::Integer(123);
    assert_eq!(s.encode(), b":+123\r\n");
    let s = RespFrame::Integer(-123);
    assert_eq!(s.encode(), b":-123\r\n");
}

#[test]
fn test_bulk_string_encode() {
    let s = RespFrame::BulkString(BulkString::new(b"hello"));
    assert_eq!(s.encode(), b"$5\r\nhello\r\n");
}

#[test]
fn test_built_string_null_encode() {
    let s = RespFrame::NullBulkString(RespNullBulkString);
    assert_eq!(s.encode(), b"$-1\r\n");
}

#[test]
fn test_null_encode() {
    let s = RespFrame::Null(RespNull);
    assert_eq!(s.encode(), b"_\r\n");
}

#[test]
fn test_null_array_encode() {
    let s = RespFrame::NullArray(RespNullArray);
    assert_eq!(s.encode(), b"*-1\r\n");
}

#[test]
fn test_boolean_encode() {
    let s = RespFrame::Boolean(true);
    assert_eq!(s.encode(), b"#t\r\n");
    let s = RespFrame::Boolean(false);
    assert_eq!(s.encode(), b"#f\r\n");
}

#[test]
fn test_array_encode() {
    let array = vec![RespFrame::Integer(1), RespFrame::Integer(2), RespFrame::Integer(3)];
    let s = RespFrame::Array(RespArray::new(array));
    assert_eq!(s.encode(), b"*3\r\n:+1\r\n:+2\r\n:+3\r\n");
}

#[test]
fn test_map_encode() {
    let mut s = RespMap::new();
    s.insert("hello".to_string(), RespFrame::BulkString(BulkString::new(b"world")));
    s.insert("foo".to_string(), double(-123456.789));
    let s = RespFrame::RespMap(s);
    assert_eq!(s.encode(), b"%2\r\n+foo\r\n,-123456.789\r\n+hello\r\n$5\r\nworld\r\n");
}

#[test]
fn test_set_encode() {
    let array = vec![
        RespFrame::Integer(1),
        RespFrame::Integer(2),
        RespFrame::Integer(3),
        RespFrame::SimpleString(SimpleString::new("hello")),
    ];
    let s = RespSet::new(array);
    assert_eq!(s.encode(), b"~4\r\n:+1\r\n:+2\r\n:+3\r\n+hello\r\n");
}

#[test]
fn test_f64_encode() {
    let s = double(123.456);
    assert_eq!(s.encode(), b",+123.456\r\n");
    let s = double(1.23456e+8);
    assert_eq!(s.encode(), b",+1.23456e8\r\n");
    let s = double(-1.23456e-9);
    assert_eq!(s.encode(), b",-1.23456e-9\r\n");
}

#[test]
fn double_formatting_thresholds() {
    assert_eq!(double(150000000.0).encode(), b",+1.5e8\r\n");
    assert_eq!(double(-0.000000001234).encode(), b",-1.234e-9\r\n");
    assert_eq!(double(100000000.0).encode(), b",+100000000\r\n");
    assert_eq!(double(0.00000001).encode(), b",+0.00000001\r\n");
    assert_eq!(double(0.5).encode(), b",+0.5\r\n");
    assert_eq!(double(1000.0).encode(), b",+1000\r\n");
    assert_eq!(double(0.0).encode(), b",+0\r\n");
}

#[test]
fn double_from_parts() {
    let d = RespDouble::new(false, 15, 7).unwrap();
    assert_eq!(d.encode(), b",+1.5e8\r\n");
    let d = RespDouble::new(true, 1234, -12).unwrap();
    assert_eq!(RespFrame::Double(d).encode(), b",-1.234e-9\r\n");
}

#[test]
fn map_encoding_sorts_keys_and_overwrites() {
    let mut m = RespMap::new();
    m.insert("b".to_string(), RespFrame::Integer(2));
    m.insert("a".to_string(), RespFrame::Integer(1));
    m.insert("b".to_string(), RespFrame::Integer(3));
    assert_eq!(m.len(), 2);
    assert_eq!(m.encode(), b"%2\r\n+a\r\n:+1\r\n+b\r\n:+3\r\n");
}

#[test]
fn set_keeps_duplicates_in_order() {
    let s = RespSet::new(vec![RespFrame::Integer(2), RespFrame::Integer(1), RespFrame::Integer(2)]);
    assert_eq!(s.encode(), b"~3\r\n:+2\r\n:+1\r\n:+2\r\n");
}

#[test]
fn empty_aggregates_encode() {
    assert_eq!(RespArray::new(vec![]).encode(), b"*0\r\n");
    assert_eq!(RespMap::new().encode(), b"%0\r\n");
    assert_eq!(RespFrame::Integer(i64::MIN).encode(), b":-9223372036854775808\r\n");
    assert_eq!(RespFrame::Integer(0).encode(), b":+0\r\n");
}

#[test]
fn encode_utf8_text() {
    let s = RespFrame::SimpleString(SimpleString::new("héllo"));
    assert_eq!(s.encode(), "+héllo\r\n".as_bytes());
}
