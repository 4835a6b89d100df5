use bytes::BytesMut;
use simple_redis::BulkString;
use simple_redis::RespArray;
use simple_redis::RespDecode;
use simple_redis::RespEncode;
use simple_redis::RespFrame;
use simple_redis::RespSet;

#[test]
fn test_set_encode() {
    let frame: RespFrame = RespFrame::SetFrame(RespSet::new(vec![
        RespFrame::Array(RespArray::new(vec![
            RespFrame::Integer(1234),
            RespFrame::Boolean(true),
        ])),
        RespFrame::BulkString(BulkString::new(b"world".to_vec())),
    ]));

    assert_eq!(frame.encode(), b"~2\r\n*2\r\n:+1234\r\n#t\r\n$5\r\nworld\r\n".to_vec());
}

#[test]
fn test_set_decode() {
    let mut buf = BytesMut::new();
    buf.extend_from_slice(b"~2\r\n$3\r\nset\r\n$5\r\nhello\r\n");

    let frame = RespSet::decode(&mut buf).unwrap();
    assert_eq!(
        frame,
        RespSet::new(vec![
            RespFrame::BulkString(BulkString::new(b"set".to_vec())),
            RespFrame::BulkString(BulkString::new(b"hello".to_vec())),
        ])
    );
}

#[test]
fn test_set_expect_length() {
    let buf = b"~2\r\n$3\r\nset\r\n$5\r\nhello\r\n";
    let len = RespSet::expect_length(buf).unwrap();
    assert_eq!(len, buf.len());
}

#[test]
fn test_set_decode_wrong_prefix() {
    let mut buf = BytesMut::from(":1\r\n");
    let ret = RespSet::decode(&mut buf);
    assert!(ret.is_err());
}
