use bytes::BytesMut;
use simple_redis::{
    BulkString, RespArray, RespDouble, RespEncoder, RespError, RespFrame, RespMap, RespNull,
    RespNullArray, RespNullBulkString, RespSet, SimpleError, SimpleString,
};

fn samples() -> Vec<RespFrame> {
    let mut map = RespMap::new();
    map.insert("zeta".to_string(), RespFrame::Integer(-4));
    map.insert("alpha".to_string(), RespFrame::BulkString(BulkString::new(b"a\r\nb")));
    vec![
        RespFrame::SimpleString(SimpleString::new("hello")),
        RespFrame::Error(SimpleError::new("ERR bad")),
        RespFrame::Integer(0),
        RespFrame::Integer(-42),
        RespFrame::BulkString(BulkString::new(b"")),
        RespFrame::BulkString(BulkString::new(b"bin\r\n\x00\xff")),
        RespFrame::Null(RespNull),
        RespFrame::NullArray(RespNullArray),
        RespFrame::NullBulkString(RespNullBulkString),
        RespFrame::Boolean(true),
        RespFrame::Boolean(false),
        RespFrame::Double(RespDouble::new(false, 123456, -3).unwrap()),
        RespFrame::Double(RespDouble::new(true, 1234, -12).unwrap()),
        RespFrame::Double(RespDouble::new(false, 15, 7).unwrap()),
        RespFrame::Double(RespDouble::new(false, 5, -3).unwrap()),
        RespFrame::Array(RespArray::new(vec![
            RespFrame::Integer(1),
            RespFrame::Array(RespArray::new(vec![RespFrame::NullBulkString(RespNullBulkString)])),
        ])),
        RespFrame::Array(RespArray::new(vec![])),
        RespFrame::RespSet(RespSet::new(vec![RespFrame::Integer(1), RespFrame::Integer(1)])),
        RespFrame::RespMap(map),
    ]
}

#[test]
fn round_trip_every_kind() {
    for f in samples() {
        let expected = format!("{:?}", f);
        let mut buf = BytesMut::from(&f.encode()[..]);
        let back = RespFrame::decode(&mut buf).unwrap();
        assert_eq!(format!("{:?}", back), expected);
        assert!(buf.is_empty());
    }
}

#[test]
fn partial_buffers_are_not_consumed() {
    for f in samples() {
        let bytes = f.encode();
        let mut buf = BytesMut::new();
        for (i, b) in bytes.iter().enumerate() {
            buf.extend_from_slice(&[*b]);
            let before = buf.clone();
            let r = RespFrame::decode(&mut buf);
            if i + 1 < bytes.len() {
                assert_eq!(r.unwrap_err(), RespError::NotComplete);
                assert_eq!(buf, before);
            } else {
                assert_eq!(format!("{:?}", r.unwrap()), format!("{:?}", RespFrame::decode(&mut BytesMut::from(&bytes[..])).unwrap()));
                assert!(buf.is_empty());
            }
        }
    }
}

#[test]
fn pipelined_frames_decode_in_order() {
    let a = RespFrame::SimpleString(SimpleString::new("first"));
    let b = RespFrame::Array(RespArray::new(vec![RespFrame::Integer(2), RespFrame::Boolean(true)]));
    let mut bytes = a.encode();
    bytes.extend_from_slice(&b.encode());
    let mut buf = BytesMut::from(&bytes[..]);
    assert_eq!(RespFrame::decode(&mut buf).unwrap(), RespFrame::SimpleString(SimpleString::new("first")));
    assert_eq!(
        RespFrame::decode(&mut buf).unwrap(),
        RespFrame::Array(RespArray::new(vec![RespFrame::Integer(2), RespFrame::Boolean(true)]))
    );
    assert!(buf.is_empty());
}

#[test]
fn incomplete_inner_element_consumes_nothing() {
    let mut buf = BytesMut::from("*2\r\n$5\r\nhello\r\n$3\r\nab");
    assert_eq!(RespFrame::decode(&mut buf).unwrap_err(), RespError::NotComplete);
    assert_eq!(&buf[..], b"*2\r\n$5\r\nhello\r\n$3\r\nab");
    buf.extend_from_slice(b"c\r\n");
    let f = RespFrame::decode(&mut buf).unwrap();
    assert_eq!(
        f,
        RespFrame::Array(RespArray::new(vec![
            RespFrame::BulkString(BulkString::new(b"hello")),
            RespFrame::BulkString(BulkString::new(b"abc")),
        ]))
    );
}

#[test]
fn map_round_trip_reorders_entries() {
    let mut buf = BytesMut::from("%2\r\n+b\r\n:+2\r\n+a\r\n:+1\r\n");
    let m = RespMap::decode(&mut buf).unwrap();
    assert_eq!(m.encode(), b"%2\r\n+a\r\n:+1\r\n+b\r\n:+2\r\n");
}
