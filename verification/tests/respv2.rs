use bytes::BytesMut;
use simple_redis::BulkString;
use simple_redis::RespArray;
use simple_redis::RespDecodeV2;
use simple_redis::RespError;
use simple_redis::RespFrame;
use simple_redis::RespMap;
use simple_redis::RespNullArray;
use simple_redis::RespNullBulkString;
use simple_redis::SimpleError;
use simple_redis::SimpleString;

#[test]
fn respv2_simple_string_length_should_work() {
    let buf = b"+OK\r\n";
    let len = RespFrame::expect_length(buf).unwrap();
    assert_eq!(len, buf.len());
}

#[test]
fn respv2_simple_string_length_bad_should_fail() {
    let buf = b"+OK";
    let ret = RespFrame::expect_length(buf);
    assert_eq!(ret.unwrap_err(), RespError::NotComplete);
}

#[test]
fn respv2_simple_string_should_work() {
    let mut buf = BytesMut::from("+OK\r\n");
    let frame = RespFrame::decode(&mut buf).unwrap();
    assert_eq!(frame, RespFrame::SimpleString(SimpleString::new("OK")));
}

#[test]
fn respv2_simple_error_length_should_work() {
    let buf = b"-ERR\r\n";
    let len = RespFrame::expect_length(buf).unwrap();
    assert_eq!(len, buf.len());
}

#[test]
fn respv2_simple_error_should_work() {
    let mut buf = BytesMut::from("-ERR\r\n");
    let frame = RespFrame::decode(&mut buf).unwrap();
    assert_eq!(frame, RespFrame::Error(SimpleError::new("ERR")));
}

#[test]
fn respv2_integer_length_should_work() {
    let buf = b":1000\r\n";
    let len = RespFrame::expect_length(buf).unwrap();
    assert_eq!(len, buf.len());
}

#[test]
fn respv2_integer_should_work() {
    let mut buf = BytesMut::from(":1000\r\n");
    let frame = RespFrame::decode(&mut buf).unwrap();
    assert_eq!(frame, RespFrame::Integer(1000));
}

#[test]
fn respv2_bulk_string_length_should_work() {
    let buf = b"$5\r\nhello\r\n";
    let len = RespFrame::expect_length(buf).unwrap();
    assert_eq!(len, buf.len());
}

#[test]
fn respv2_bulk_string_should_work() {
    let mut buf = BytesMut::from("$5\r\nhello\r\n");
    let frame = RespFrame::decode(&mut buf).unwrap();
    assert_eq!(frame, RespFrame::BulkString(BulkString::new(b"hello".to_vec())));
}

#[test]
fn respv2_null_bulk_string_length_should_work() {
    let buf = b"$-1\r\n";
    let len = RespFrame::expect_length(buf).unwrap();
    assert_eq!(len, buf.len());
}

#[test]
fn respv2_null_bulk_string_should_work() {
    let mut buf = BytesMut::from("$-1\r\n");
    let frame = RespFrame::decode(&mut buf).unwrap();
    assert_eq!(frame, RespFrame::NullBulkString(RespNullBulkString));
}

#[test]
fn respv2_array_length_should_work() {
    let buf = b"*2\r\n$3\r\nset\r\n$5\r\nhello\r\n";
    let len = RespFrame::expect_length(buf).unwrap();
    assert_eq!(len, buf.len());
}

#[test]
fn respv2_array_should_work() {
    let mut buf = BytesMut::from("*2\r\n$3\r\nset\r\n$5\r\nhello\r\n");
    let frame = RespFrame::decode(&mut buf).unwrap();
    assert_eq!(
        frame,
        RespFrame::Array(RespArray::new(vec![
            RespFrame::BulkString(BulkString::new(b"set".to_vec())),
            RespFrame::BulkString(BulkString::new(b"hello".to_vec())),
        ]))
    );
}

#[test]
fn respv2_null_array_length_should_work() {
    let buf = b"*-1\r\n";
    let len = RespFrame::expect_length(buf).unwrap();
    assert_eq!(len, buf.len());
}

#[test]
fn respv2_null_array_should_work() {
    let mut buf = BytesMut::from("*-1\r\n");
    let frame = RespFrame::decode(&mut buf).unwrap();
    assert_eq!(frame, RespFrame::NullArray(RespNullArray));
}

#[test]
fn respv2_map_length_should_work() {
    let buf = b"%1\r\n+OK\r\n-ERR\r\n";
    let len = RespFrame::expect_length(buf).unwrap();
    assert_eq!(len, buf.len());
}

#[test]
fn respv2_map_should_work() {
    let mut buf = BytesMut::from("%1\r\n+OK\r\n-ERR\r\n");
    let frame = RespFrame::decode(&mut buf).unwrap();
    let items = RespMap::new().insert(b"OK".to_vec(), RespFrame::Error(SimpleError::new("ERR")));
    assert_eq!(frame, RespFrame::MapFrame(items));
}

#[test]
fn respv2_map_with_real_data_should_work() {
    let mut buf = BytesMut::from("%2\r\n+hello\r\n$5\r\nworld\r\n+foo\r\n$3\r\nbar\r\n");
    let frame = RespFrame::decode(&mut buf).unwrap();
    let items = RespMap::new()
        .insert(
            b"hello".to_vec(),
            RespFrame::BulkString(BulkString::new(b"world".to_vec())),
        )
        .insert(
            b"foo".to_vec(),
            RespFrame::BulkString(BulkString::new(b"bar".to_vec())),
        );
    assert_eq!(frame, RespFrame::MapFrame(items));
}
