use bytes::BytesMut;
use simple_redis::{
    resp_ok, Backend, BulkString, Command, CommandError, Get, HGet, HGetAll, HSet, RespArray,
    RespFrame, RespMap, RespNull, SetValue, SimpleString,
};

fn bulk(s: &str) -> RespFrame {
    RespFrame::BulkString(BulkString::new(s.as_bytes()))
}

fn array(items: Vec<RespFrame>) -> RespArray {
    RespArray::new(items)
}

#[test]
fn test_hget_try_from_resp_array() {
    let mut buf = BytesMut::new();
    buf.extend_from_slice(b"*3\r\n$4\r\nhget\r\n$3\r\nkey\r\n$5\r\nfield\r\n");
    let cmd: RespArray = RespArray::decode(&mut buf).unwrap();
    println!("{:?}", cmd);
    let hget: HGet = HGet::try_from(cmd).unwrap();
    assert_eq!(hget.key, "key");
    assert_eq!(hget.field, "field");
}

#[test]
fn test_hset_try_from_resp_array() {
    let mut buf = BytesMut::new();
    buf.extend_from_slice(b"*4\r\n$4\r\nhset\r\n$3\r\nkey\r\n$5\r\nfield\r\n$5\r\nvalue\r\n");
    let cmd: RespArray = RespArray::decode(&mut buf).unwrap();
    println!("{:?}", cmd);
    let hset: HSet = HSet::try_from(cmd).unwrap();
    let value = BulkString::new(b"value");
    assert_eq!(hset.key, "key");
    assert_eq!(hset.field, "field");
    assert_eq!(hset.value, RespFrame::BulkString(value));
}

#[test]
fn test_hgetall_try_from_resp_array() {
    let mut buf = BytesMut::new();
    buf.extend_from_slice(b"*2\r\n$7\r\nhgetall\r\n$3\r\nkey\r\n");
    let cmd: RespArray = RespArray::decode(&mut buf).unwrap();
    println!("{:?}", cmd);
    let hgetall: HGetAll = HGetAll::try_from(cmd).unwrap();
    assert_eq!(hgetall.key, "key");
}

#[test]
fn test_get_try_from_resp_array() {
    let mut buf = BytesMut::new();
    buf.extend_from_slice(b"*2\r\n$3\r\nget\r\n$3\r\nkey\r\n");
    let cmd: RespArray = RespArray::decode(&mut buf).unwrap();
    println!("{:?}", cmd);
    let get: Get = Get::try_from(cmd).unwrap();
    assert_eq!(get.key, "key");
}

#[test]
fn test_set_try_from_resp_array() {
    let mut buf = BytesMut::new();
    buf.extend_from_slice(b"*3\r\n$3\r\nset\r\n$3\r\nkey\r\n$5\r\nvalue\r\n");
    let cmd: RespArray = RespArray::decode(&mut buf).unwrap();
    println!("{:?}", cmd);
    let set: SetValue = SetValue::try_from(cmd).unwrap();
    assert_eq!(set.key, "key");
    assert_eq!(set.value, RespFrame::BulkString(BulkString::new(b"value")));
}

#[test]
fn test_get_execute() {
    let backend = Backend::new();
    let get = Get { key: "key".to_string() };
    let resp = get.execute(&backend);
    assert_eq!(resp, RespFrame::Null(RespNull));
}

#[test]
fn test_set_execute() {
    let mut backend = Backend::new();
    let set = SetValue { key: "key".to_string(), value: RespFrame::BulkString(BulkString::new(b"value")) };
    let resp = set.execute(&mut backend);
    assert_eq!(resp, resp_ok());
    let resp = backend.get(&"key".to_string()).unwrap();
    assert_eq!(resp, RespFrame::BulkString(BulkString::new(b"value")));
}

#[test]
fn test_get_set_execute() {
    let mut backend = Backend::new();
    let set = SetValue { key: "key".to_string(), value: RespFrame::BulkString(BulkString::new(b"value")) };
    let resp = set.execute(&mut backend);
    assert_eq!(resp, resp_ok());
    let get = Get { key: "key".to_string() };
    let resp = get.execute(&backend);
    assert_eq!(resp, RespFrame::BulkString(BulkString::new(b"value")));
}

#[test]
fn set_missing_value_is_invalid_argument() {
    let cmd = RespFrame::Array(array(vec![bulk("set"), bulk("key")]));
    assert_eq!(Command::try_from(cmd).unwrap_err(), CommandError::InvalidArgument);
}

#[test]
fn integer_command_name_is_invalid_command() {
    let cmd = RespFrame::Array(array(vec![RespFrame::Integer(1), bulk("key")]));
    assert_eq!(Command::try_from(cmd).unwrap_err(), CommandError::InvalidCommand);
    let not_array = bulk("get");
    assert_eq!(Command::try_from(not_array).unwrap_err(), CommandError::InvalidCommand);
    assert_eq!(Command::try_from_array(array(vec![])).unwrap_err(), CommandError::InvalidCommand);
}

#[test]
fn argument_kinds_are_checked() {
    let cmd = array(vec![bulk("hget"), bulk("key"), RespFrame::Integer(1)]);
    assert_eq!(HGet::try_from(cmd).unwrap_err(), CommandError::InvalidArgument);
    let cmd = array(vec![bulk("get"), RespFrame::BulkString(BulkString::new(&[0xff, 0xfe]))]);
    assert_eq!(Get::try_from(cmd).unwrap_err(), CommandError::Utf8Error);
    let cmd = array(vec![bulk("hget"), bulk("key")]);
    assert_eq!(HGet::try_from(cmd).unwrap_err(), CommandError::InvalidArgument);
}

#[test]
fn command_names_match_exactly() {
    let mut backend = Backend::new();
    let cmd = Command::try_from(RespFrame::Array(array(vec![bulk("GET"), bulk("k")]))).unwrap();
    assert!(matches!(cmd, Command::Unrecognized(_)));
    assert_eq!(cmd.execute(&mut backend), resp_ok());
    // a direct conversion compares the name in any case
    let get = Get::try_from(array(vec![bulk("GET"), bulk("k")])).unwrap();
    assert_eq!(get.key, "k");
    let wrong = Get::try_from(array(vec![bulk("set"), bulk("k")]));
    assert_eq!(wrong.unwrap_err(), CommandError::InvalidCommand);
}

#[test]
fn unrecognized_command_changes_nothing() {
    let mut backend = Backend::new();
    let cmd = Command::try_from(RespFrame::Array(array(vec![bulk("ping"), bulk("x"), RespFrame::Integer(3)]))).unwrap();
    assert!(matches!(cmd, Command::Unrecognized(_)));
    assert_eq!(cmd.execute(&mut backend), RespFrame::SimpleString(SimpleString::new("OK")));
    assert_eq!(backend.get(&"x".to_string()), None);
    assert_eq!(backend.hgetall(&"x".to_string()), None);
}

#[test]
fn hgetall_is_asymmetric() {
    let mut backend = Backend::new();
    let missing = HGetAll { key: "missing".to_string() };
    assert_eq!(missing.execute(&backend), RespFrame::Array(RespArray::new(vec![])));

    let hset = HSet { key: "k".to_string(), field: "f".to_string(), value: bulk("v") };
    assert_eq!(hset.execute(&mut backend), resp_ok());
    let all = HGetAll { key: "k".to_string() }.execute(&backend);
    let mut expected = RespMap::new();
    expected.insert("f".to_string(), bulk("v"));
    assert_eq!(all, RespFrame::RespMap(expected));
}

#[test]
fn hget_and_hset_through_commands() {
    let mut backend = Backend::new();
    let cmd = Command::try_from(RespFrame::Array(array(vec![bulk("hset"), bulk("k"), bulk("f"), RespFrame::Integer(5)]))).unwrap();
    assert_eq!(cmd.execute(&mut backend), resp_ok());
    let cmd = Command::try_from(RespFrame::Array(array(vec![bulk("hget"), bulk("k"), bulk("f")]))).unwrap();
    assert_eq!(cmd.execute(&mut backend), RespFrame::Integer(5));
    let cmd = Command::try_from(RespFrame::Array(array(vec![bulk("hget"), bulk("k"), bulk("g")]))).unwrap();
    assert_eq!(cmd.execute(&mut backend), RespFrame::Null(RespNull));
    let cmd = Command::try_from(RespFrame::Array(array(vec![bulk("hget"), bulk("nokey"), bulk("f")]))).unwrap();
    assert_eq!(cmd.execute(&mut backend), RespFrame::Null(RespNull));
}

#[test]
fn get_before_and_after_set() {
    let mut backend = Backend::new();
    let get = Command::try_from(RespFrame::Array(array(vec![bulk("get"), bulk("k")]))).unwrap();
    assert_eq!(get.execute(&mut backend), RespFrame::Null(RespNull));
    let set = Command::try_from(RespFrame::Array(array(vec![bulk("set"), bulk("k"), bulk("v")]))).unwrap();
    assert_eq!(set.execute(&mut backend), resp_ok());
    let get = Command::try_from(RespFrame::Array(array(vec![bulk("get"), bulk("k")]))).unwrap();
    assert_eq!(get.execute(&mut backend), bulk("v"));
    let set = SetValue { key: "k".to_string(), value: bulk("w") };
    set.execute(&mut backend);
    assert_eq!(Get { key: "k".to_string() }.execute(&backend), bulk("w"));
}
