use bytes::BytesMut;
use simple_redis::Backend;
use simple_redis::BulkString;
use simple_redis::CommandError;
use simple_redis::CommandExecutor;
use simple_redis::Echo;
use simple_redis::RespArray;
use simple_redis::RespDecodeV2;
use simple_redis::RespDecode;
use simple_redis::RespDouble;
use simple_redis::RespEncode;
use simple_redis::RespError;
use simple_redis::RespFrame;
use simple_redis::RespMap;
use simple_redis::RespNull;
use simple_redis::RespNullArray;
use simple_redis::RespNullBulkString;
use simple_redis::RespSet;
use simple_redis::SAdd;
use simple_redis::SIsMember;
use simple_redis::SimpleError;
use simple_redis::shard_index;
use simple_redis::SimpleString;

fn bulk(s: &[u8]) -> RespFrame {
    RespFrame::BulkString(BulkString::new(s.to_vec()))
}

#[test]
fn set_command_array_decodes_completely() {
    let input = b"*3\r\n$3\r\nSET\r\n$3\r\nkey\r\n$5\r\nvalue\r\n";
    assert_eq!(input.len(), 33);
    assert_eq!(RespFrame::expect_length(input).unwrap(), 33);
    let mut buf = BytesMut::new();
    buf.extend_from_slice(input);
    let frame = RespFrame::decode(&mut buf).unwrap();
    assert_eq!(buf.len(), 0);
    assert_eq!(
        frame,
        RespFrame::Array(RespArray::new(vec![bulk(b"SET"), bulk(b"key"), bulk(b"value")]))
    );
}

#[test]
fn null_variants_stay_distinct() {
    let mut b1 = BytesMut::from("$-1\r\n");
    let f1 = RespFrame::decode(&mut b1).unwrap();
    assert_eq!(f1, RespFrame::NullBulkString(RespNullBulkString));
    let mut b2 = BytesMut::from("*-1\r\n");
    let f2 = RespFrame::decode(&mut b2).unwrap();
    assert_eq!(f2, RespFrame::NullArray(RespNullArray));
    assert_ne!(f1, f2);
    assert_ne!(f1, RespFrame::Null(RespNull));
    assert_ne!(f2, RespFrame::Null(RespNull));
}

#[test]
fn encode_each_variant_exact_bytes() {
    assert_eq!(RespFrame::SimpleString(SimpleString::new("OK")).encode(), b"+OK\r\n".to_vec());
    assert_eq!(RespFrame::Error(SimpleError::new("ERR")).encode(), b"-ERR\r\n".to_vec());
    assert_eq!(RespFrame::Integer(123).encode(), b":+123\r\n".to_vec());
    assert_eq!(RespFrame::Integer(-123).encode(), b":-123\r\n".to_vec());
    assert_eq!(RespFrame::Integer(0).encode(), b":+0\r\n".to_vec());
    assert_eq!(bulk(b"hello").encode(), b"$5\r\nhello\r\n".to_vec());
    assert_eq!(RespFrame::NullBulkString(RespNullBulkString).encode(), b"$-1\r\n".to_vec());
    assert_eq!(RespFrame::NullArray(RespNullArray).encode(), b"*-1\r\n".to_vec());
    assert_eq!(RespFrame::Null(RespNull).encode(), b"_\r\n".to_vec());
    assert_eq!(RespFrame::Boolean(true).encode(), b"#t\r\n".to_vec());
    assert_eq!(RespFrame::Boolean(false).encode(), b"#f\r\n".to_vec());
    assert_eq!(RespFrame::Double(RespDouble::new("+3.25")).encode(), b",+3.25\r\n".to_vec());
}

#[test]
fn map_encodes_in_key_order() {
    let m = RespMap::new()
        .insert(b"zz".to_vec(), RespFrame::Integer(2))
        .insert(b"aa".to_vec(), RespFrame::Integer(1));
    assert_eq!(RespFrame::MapFrame(m).encode(), b"%2\r\n+aa\r\n:+1\r\n+zz\r\n:+2\r\n".to_vec());
}

#[test]
fn map_insert_replaces_on_equal_key() {
    let m = RespMap::new()
        .insert(b"k".to_vec(), RespFrame::Integer(1))
        .insert(b"k".to_vec(), RespFrame::Integer(2));
    assert_eq!(RespFrame::MapFrame(m).encode(), b"%1\r\n+k\r\n:+2\r\n".to_vec());
}

#[test]
fn round_trip_concrete_frames() {
    let frames = vec![
        RespFrame::SimpleString(SimpleString::new("fine")),
        RespFrame::Integer(-9000),
        bulk(b"with\r\ninside"),
        RespFrame::Array(RespArray::new(vec![RespFrame::Boolean(false), bulk(b"x")])),
        RespFrame::MapFrame(RespMap::new().insert(b"a".to_vec(), RespFrame::Integer(7))),
    ];
    for f in frames {
        let encoded = f.encode();
        let expect = encoded.clone();
        let mut buf = BytesMut::new();
        buf.extend_from_slice(&encoded);
        let back = RespFrame::decode(&mut buf).unwrap();
        assert_eq!(buf.len(), 0);
        assert_eq!(back.encode(), expect);
    }
}

#[test]
fn incomplete_prefixes_report_not_complete() {
    let full = b"*2\r\n$3\r\nset\r\n$5\r\nhello\r\n";
    for cut in 0..full.len() {
        let ret = RespFrame::expect_length(&full[..cut]);
        assert_eq!(ret.unwrap_err(), RespError::NotComplete);
    }
    assert_eq!(RespFrame::expect_length(full).unwrap(), full.len());
}

#[test]
fn invalid_inputs_report_errors() {
    assert_eq!(RespFrame::expect_length(b"x\r\n").unwrap_err(), RespError::InvalidFrameType);
    assert_eq!(RespFrame::expect_length(b"$-2\r\n").unwrap_err(), RespError::InvalidFrameLength);
    assert_eq!(RespFrame::expect_length(b"~-1\r\n").unwrap_err(), RespError::InvalidFrameLength);
    let mut buf = BytesMut::from(":12a\r\n");
    assert_eq!(RespFrame::decode(&mut buf).unwrap_err(), RespError::InvalidFrame);
    let mut buf2 = BytesMut::from("_x\r\n");
    assert_eq!(RespFrame::decode(&mut buf2).unwrap_err(), RespError::InvalidFrame);
}

#[test]
fn sadd_then_sismember() {
    let mut backend = Backend::new();
    let sadd = SAdd::try_from(RespArray::new(vec![bulk(b"SADD"), bulk(b"key"), bulk(b"member")]))
        .unwrap();
    let reply = sadd.execute(&mut backend);
    assert_eq!(reply, RespFrame::SimpleString(SimpleString::new("OK")));

    let q1 = SIsMember::try_from(RespArray::new(vec![
        bulk(b"SISMEMBER"),
        bulk(b"key"),
        bulk(b"member"),
    ]))
    .unwrap();
    assert_eq!(q1.execute(&mut backend), RespFrame::Integer(1));

    let q2 = SIsMember::try_from(RespArray::new(vec![
        bulk(b"SISMEMBER"),
        bulk(b"key"),
        bulk(b"other"),
    ]))
    .unwrap();
    assert_eq!(q2.execute(&mut backend), RespFrame::Integer(0));
}

#[test]
fn sadd_keeps_earlier_members() {
    let mut backend = Backend::new();
    for m in [b"m1".as_slice(), b"m2".as_slice(), b"m3".as_slice()] {
        let c = SAdd::try_from(RespArray::new(vec![bulk(b"sadd"), bulk(b"k"), bulk(m)])).unwrap();
        c.execute(&mut backend);
    }
    for m in [b"m1".as_slice(), b"m2".as_slice(), b"m3".as_slice()] {
        let q =
            SIsMember::try_from(RespArray::new(vec![bulk(b"sismember"), bulk(b"k"), bulk(m)]))
                .unwrap();
        assert_eq!(q.execute(&mut backend), RespFrame::Integer(1));
    }
}

#[test]
fn sadd_on_string_key_is_an_error_reply() {
    let mut backend = Backend::new();
    assert!(backend.set(b"k".to_vec(), b"v".to_vec()));
    let c = SAdd::try_from(RespArray::new(vec![bulk(b"sadd"), bulk(b"k"), bulk(b"m")])).unwrap();
    let reply = c.execute(&mut backend);
    assert_eq!(reply, RespFrame::Error(SimpleError::new("WRONGTYPE")));
    assert_eq!(backend.get(b"k").unwrap(), b"v".to_vec());
}

#[test]
fn echo_replies_with_its_argument() {
    let mut backend = Backend::new();
    let c = Echo::try_from(RespArray::new(vec![bulk(b"echo"), bulk(b"hello")])).unwrap();
    assert_eq!(c.execute(&mut backend), RespFrame::SimpleString(SimpleString::new("hello")));
}

#[test]
fn command_shape_errors_are_classified() {
    let r = Echo::try_from(RespArray::new(vec![bulk(b"echo")]));
    assert_eq!(r.unwrap_err(), CommandError::WrongArity);
    let r = Echo::try_from(RespArray::new(vec![bulk(b"ping"), bulk(b"x")]));
    assert_eq!(r.unwrap_err(), CommandError::InvalidCommand);
    let r = Echo::try_from(RespArray::new(vec![bulk(b"echo"), RespFrame::Integer(1)]));
    assert_eq!(r.unwrap_err(), CommandError::InvalidArgument);
    let r = SAdd::try_from(RespArray::new(vec![bulk(b"sadd"), RespFrame::Integer(1), bulk(b"m")]));
    assert_eq!(r.unwrap_err(), CommandError::InvalidArgument);
}

#[test]
fn backend_strings_set_then_get() {
    let mut backend = Backend::new();
    assert!(backend.set(b"name".to_vec(), b"value".to_vec()));
    assert_eq!(backend.get(b"name").unwrap(), b"value".to_vec());
    assert!(backend.get(b"absent").is_none());
    assert!(backend.set(b"name".to_vec(), b"newer".to_vec()));
    assert_eq!(backend.get(b"name").unwrap(), b"newer".to_vec());
}

#[test]
fn double_survives_decode_encode() {
    let mut buf = BytesMut::from(",+1.5e9\r\n");
    let f = RespFrame::decode(&mut buf).unwrap();
    assert_eq!(f, RespFrame::Double(RespDouble::new("+1.5e9")));
    assert_eq!(f.encode(), b",+1.5e9\r\n".to_vec());
}

#[test]
fn backend_hash_fields_set_then_get() {
    let mut backend = Backend::new();
    assert!(backend.hset(b"h".to_vec(), b"f1".to_vec(), RespFrame::Integer(1)));
    assert!(backend.hset(b"h".to_vec(), b"f2".to_vec(), RespFrame::Integer(2)));
    assert_eq!(backend.hget(b"h", b"f1").unwrap(), &RespFrame::Integer(1));
    assert_eq!(backend.hget(b"h", b"f2").unwrap(), &RespFrame::Integer(2));
    assert!(backend.hget(b"h", b"f3").is_none());
    assert!(backend.hset(b"h".to_vec(), b"f1".to_vec(), RespFrame::Integer(9)));
    assert_eq!(backend.hget(b"h", b"f1").unwrap(), &RespFrame::Integer(9));
    assert!(!backend.sadd(b"h".to_vec(), RespFrame::Integer(1)));
    assert!(backend.get(b"h").is_none());
    assert!(!backend.set(b"h".to_vec(), b"x".to_vec()));
}

#[test]
fn command_rejects_invalid_utf8() {
    let r = Echo::try_from(RespArray::new(vec![bulk(b"echo"), bulk(&[0xFF])]));
    assert_eq!(r.unwrap_err(), CommandError::InvalidUtf8);
    let r = SAdd::try_from(RespArray::new(vec![bulk(b"sadd"), bulk(&[0xFF]), bulk(b"m")]));
    assert_eq!(r.unwrap_err(), CommandError::InvalidUtf8);
    let r = SIsMember::try_from(RespArray::new(vec![
        bulk(b"sismember"),
        bulk(b"k"),
        bulk(&[0xFE]),
    ]));
    assert_eq!(r.unwrap_err(), CommandError::InvalidUtf8);
    let accent = [104u8, 0xC3, 0xA9, 108, 108, 111];
    let r = Echo::try_from(RespArray::new(vec![bulk(b"echo"), bulk(&accent)]));
    assert!(r.is_ok());
}

#[test]
fn shard_index_is_deterministic_and_in_range() {
    assert_eq!(shard_index(b"abc", 16), (97 + 98 + 99) % 16);
    assert_eq!(shard_index(b"abc", 16), shard_index(b"abc", 16));
    for n in 1..10 {
        assert!(shard_index(b"whatever", n) < n);
    }
    assert_eq!(shard_index(b"", 7), 0);
}

#[test]
fn set_decode_incomplete_is_not_complete_and_consumes_nothing() {
    let mut buf = BytesMut::from("~2\r\n$3\r\nset\r\n$5\r\nhel");
    let r = RespSet::decode(&mut buf);
    assert_eq!(r.unwrap_err(), RespError::NotComplete);
    assert_eq!(&buf[..], b"~2\r\n$3\r\nset\r\n$5\r\nhel");
    assert_eq!(RespSet::expect_length(b"~2\r\n$3").unwrap_err(), RespError::NotComplete);
}
