use bytes::{BufMut, BytesMut};
use simple_redis::{
    decode_boolean, decode_frame, decode_integer, find_crlf, BulkString, RespArray, RespDouble,
    RespError, RespFrame, RespMap, RespNull, RespNullArray, RespNullBulkString, RespSet,
    SimpleError, SimpleString,
};

#[test]
fn test_simple_string_decode() {
    let mut buf = BytesMut::from("+hello\r\n");
    let s: SimpleString = SimpleString::new("hello");
    assert_eq!(SimpleString::decode(&mut buf).unwrap(), s);

    buf.extend_from_slice(b"+hello\r");
    let ret = SimpleString::decode(&mut buf);
    assert_eq!(ret.unwrap_err(), RespError::NotComplete);

    buf.put_u8(b'\n');
    let ret: SimpleString = SimpleString::decode(&mut buf).unwrap();
    assert_eq!(ret, s);
}

#[test]
fn test_simple_error_decode() {
    let mut buf = BytesMut::from("-error\r\n");
    let s: SimpleError = SimpleError::new("error");
    assert_eq!(SimpleError::decode(&mut buf).unwrap(), s);
}

#[test]
fn test_integer_decode() {
    let mut buf = BytesMut::from(":1000\r\n");
    let s: i64 = 1000;
    assert_eq!(decode_integer(&mut buf).unwrap(), s);
}

#[test]
fn test_bool_decode() {
    let mut buf = BytesMut::from("#t\r\n");
    let s: bool = true;
    assert_eq!(decode_boolean(&mut buf).unwrap(), s);

    let mut buf = BytesMut::from("#f\r\n");
    let s: bool = false;
    assert_eq!(decode_boolean(&mut buf).unwrap(), s);
}

#[test]
fn test_bulk_string_decode() {
    let mut buf = BytesMut::from("$5\r\nhello\r\n");
    let s = BulkString::new(b"hello");
    println!("{:?}", s);
    assert_eq!(BulkString::decode(&mut buf).unwrap(), s);
}

#[test]
fn test_null_bulk_string_decode() {
    let mut buf = BytesMut::from("$-1\r\n");
    let s = RespNullBulkString;
    assert_eq!(RespNullBulkString::decode(&mut buf).unwrap(), s);
}

#[test]
fn test_null_decode() {
    let mut buf = BytesMut::from("_\r\n");
    let s = RespNull;
    assert_eq!(RespNull::decode(&mut buf).unwrap(), s);
    buf.extend_from_slice(b"_\r");
}

#[test]
fn test_null_array_decode() {
    let mut buf = BytesMut::from("*-1\r\n");
    let s = RespNullArray;
    assert_eq!(RespNullArray::decode(&mut buf).unwrap(), s);
}

#[test]
fn test_array_decode() {
    let mut buf = BytesMut::from("*2\r\n+hello\r\n-error\r\n");
    let s = RespArray::new(vec![
        RespFrame::SimpleString(SimpleString::new("hello")),
        RespFrame::Error(SimpleError::new("error")),
    ]);
    assert_eq!(RespArray::decode(&mut buf).unwrap(), s);
}

#[test]
fn test_map_decode() {
    let mut buf = BytesMut::from("%1\r\n+hello\r\n+world\r\n");
    let mut map = RespMap::new();
    map.insert("hello".to_string(), RespFrame::SimpleString(SimpleString::new("world")));
    assert_eq!(RespMap::decode(&mut buf).unwrap(), map);
}

#[test]
fn test_set_decode() {
    let mut buf = BytesMut::from("~3\r\n+hello\r\n-error\r\n:1000\r\n");
    let s = RespSet::new(vec![
        RespFrame::SimpleString(SimpleString::new("hello")),
        RespFrame::Error(SimpleError::new("error")),
        RespFrame::Integer(1000),
    ]);
    assert_eq!(RespSet::decode(&mut buf).unwrap(), s);
}

#[test]
fn test_f64_decode() {
    let mut buf = BytesMut::from(",1000.0\r\n");
    let s = RespDouble::new(false, 1, 3).unwrap();
    assert_eq!(RespDouble::decode(&mut buf).unwrap(), s);
}

#[test]
fn test_bytes_mut() {
    let mut buf = BytesMut::from("10000000_00000_00000\r\n");
    let _ = buf.split_to(10);
    println!("{:?}", buf);
}

#[test]
fn empty_aggregate_decodes() {
    let mut buf = BytesMut::from("*0\r\n");
    assert_eq!(RespFrame::decode(&mut buf).unwrap(), RespFrame::Array(RespArray::new(vec![])));
    assert!(buf.is_empty());
}

#[test]
fn null_literals_inside_array() {
    let mut buf = BytesMut::from("*3\r\n$-1\r\n*-1\r\n_\r\n");
    let expected = RespArray::new(vec![
        RespFrame::NullBulkString(RespNullBulkString),
        RespFrame::NullArray(RespNullArray),
        RespFrame::Null(RespNull),
    ]);
    assert_eq!(RespArray::decode(&mut buf).unwrap(), expected);
}

#[test]
fn map_decode_keeps_last_duplicate() {
    let mut buf = BytesMut::from("%2\r\n+a\r\n:+1\r\n+a\r\n:+2\r\n");
    let mut map = RespMap::new();
    map.insert("a".to_string(), RespFrame::Integer(2));
    assert_eq!(RespMap::decode(&mut buf).unwrap(), map);
}

#[test]
fn decode_errors() {
    let mut buf = BytesMut::from("!oops\r\n");
    assert_eq!(RespFrame::decode(&mut buf).unwrap_err(), RespError::InvalidFrameType);
    assert_eq!(&buf[..], b"!oops\r\n");

    let mut buf = BytesMut::from(":abc\r\n");
    assert_eq!(RespFrame::decode(&mut buf).unwrap_err(), RespError::ParseIntError);

    let mut buf = BytesMut::from(":9223372036854775808\r\n");
    assert_eq!(RespFrame::decode(&mut buf).unwrap_err(), RespError::ParseIntError);

    let mut buf = BytesMut::from(",abc\r\n");
    assert_eq!(RespFrame::decode(&mut buf).unwrap_err(), RespError::ParseDoubleError);

    let mut buf = BytesMut::from("$x\r\n");
    assert_eq!(RespFrame::decode(&mut buf).unwrap_err(), RespError::ParseIntError);

    let mut buf = BytesMut::from("#x\r\n");
    assert_eq!(RespFrame::decode(&mut buf).unwrap_err(), RespError::InvalidFrameType);

    let mut buf = BytesMut::new();
    assert_eq!(RespFrame::decode(&mut buf).unwrap_err(), RespError::NotComplete);
}

#[test]
fn wrong_kind_leaves_buffer() {
    let mut buf = BytesMut::from("-error\r\n");
    assert_eq!(SimpleString::decode(&mut buf).unwrap_err(), RespError::InvalidFrameType);
    assert_eq!(&buf[..], b"-error\r\n");
}

#[test]
fn double_normal_form_and_limits() {
    assert_eq!(RespDouble::new(false, 10, 0), None);
    assert_eq!(RespDouble::new(false, 0, 3), None);
    assert_eq!(RespDouble::new(false, 123_456_789_012_345_678, 0), None);
    assert_eq!(RespDouble::new(false, 1, 309), None);
    let d = RespDouble::new(true, 25, -1).unwrap();
    assert!(d.negative());
    assert_eq!(d.significand(), 25);
    assert_eq!(d.exponent(), -1);
    let mut buf = BytesMut::from(",inf\r\n");
    assert_eq!(RespDouble::decode(&mut buf).unwrap_err(), RespError::ParseDoubleError);
    let mut buf = BytesMut::from(",1.234567890123456789\r\n");
    assert_eq!(RespDouble::decode(&mut buf).unwrap_err(), RespError::ParseDoubleError);
}

#[test]
fn line_may_end_at_a_carriage_return_prefix() {
    assert_eq!(simple_redis::extract_simple_frame_data(b"\r\nx", b'\r'), Ok(0));
    assert_eq!(simple_redis::extract_simple_frame_data(b"+ab\r\n", b'+'), Ok(3));
    assert_eq!(simple_redis::parse_length(b"\r\nx", b'\r'), Err(RespError::ParseIntError));
}

#[test]
fn integer_edges() {
    let mut buf = BytesMut::from(":-9223372036854775808\r\n:+7\r\n");
    assert_eq!(decode_integer(&mut buf).unwrap(), i64::MIN);
    assert_eq!(decode_integer(&mut buf).unwrap(), 7);
}

#[test]
fn double_text_forms() {
    let mut buf = BytesMut::from(",1.5E+8\r\n,-.5\r\n,2.\r\n,-0\r\n");
    assert_eq!(RespDouble::decode(&mut buf).unwrap(), RespDouble::new(false, 15, 7).unwrap());
    assert_eq!(RespDouble::decode(&mut buf).unwrap(), RespDouble::new(true, 5, -1).unwrap());
    assert_eq!(RespDouble::decode(&mut buf).unwrap(), RespDouble::new(false, 2, 0).unwrap());
    assert_eq!(RespDouble::decode(&mut buf).unwrap(), RespDouble::new(true, 0, 0).unwrap());
}

#[test]
fn invalid_utf8_text_is_replaced() {
    let mut buf = BytesMut::from(&b"+a\xffb\r\n"[..]);
    let s = SimpleString::decode(&mut buf).unwrap();
    assert_eq!(s.0, "a\u{FFFD}b");
}

#[test]
fn crlf_positions() {
    assert_eq!(find_crlf(b"+a\r\nb\r\n", 1), Some(2));
    assert_eq!(find_crlf(b"+a\r\nb\r\n", 2), Some(5));
    assert_eq!(find_crlf(b"+a\r\nb\r\n", 3), None);
    assert_eq!(find_crlf(b"", 1), None);
}

#[test]
fn decode_frame_reads_without_consuming() {
    let data = b"+ok\r\n:+1\r\n";
    let (f, n) = decode_frame(data).unwrap();
    assert_eq!(f, RespFrame::SimpleString(SimpleString::new("ok")));
    assert_eq!(n, 5);
}
