use bigsets::resp::{RespError, RespValue};
use bytes::{Bytes, BytesMut};

fn parse(bytes: &[u8]) -> Result<(RespValue, usize), RespError> {
    RespValue::parse(bytes)
}

#[test]
fn test_parse_simple_string() {
    let (val, used) = parse(b"+OK\r\n").unwrap();
    assert_eq!(val, RespValue::SimpleString("OK".to_string()));
    assert_eq!(used, 5);
}

#[test]
fn test_parse_integer() {
    let (val, _) = parse(b":42\r\n").unwrap();
    assert_eq!(val, RespValue::Integer(42));
}

#[test]
fn test_parse_bulk_string() {
    let (val, used) = parse(b"$5\r\nhello\r\n").unwrap();
    assert_eq!(val, RespValue::BulkString(Bytes::from("hello")));
    assert_eq!(used, 11);
}

#[test]
fn test_parse_array() {
    let (val, used) = parse(b"*2\r\n$3\r\nfoo\r\n$3\r\nbar\r\n").unwrap();
    assert_eq!(
        val,
        RespValue::Array(vec![
            RespValue::BulkString(Bytes::from("foo")),
            RespValue::BulkString(Bytes::from("bar")),
        ])
    );
    assert_eq!(used, 22);
}

#[test]
fn test_serialize() {
    let val = RespValue::SimpleString("OK".to_string());
    let mut buf = BytesMut::new();
    val.serialize(&mut buf);
    assert_eq!(&buf[..], b"+OK\r\n");
}

#[test]
fn parse_tells_incomplete_from_invalid() {
    assert!(matches!(parse(b""), Err(RespError::Incomplete)));
    assert!(matches!(parse(b"+"), Err(RespError::Incomplete)));
    assert!(matches!(parse(b"+OK\r"), Err(RespError::Incomplete)));
    assert!(matches!(parse(b"$5\r\nhel"), Err(RespError::Incomplete)));
    assert!(matches!(parse(b"*2\r\n$3\r\nfoo\r\n"), Err(RespError::Incomplete)));
    assert!(matches!(parse(b"?x\r\n"), Err(RespError::InvalidProtocol)));
    assert!(matches!(parse(b":4x\r\n"), Err(RespError::InvalidProtocol)));
    assert!(matches!(parse(b":\r\n"), Err(RespError::InvalidProtocol)));
    assert!(matches!(parse(b":-\r\n"), Err(RespError::InvalidProtocol)));
    assert!(matches!(parse(b":-+1\r\n"), Err(RespError::InvalidProtocol)));
    assert!(matches!(parse(b":9223372036854775808\r\n"), Err(RespError::InvalidProtocol)));
    assert!(matches!(parse(b"$3\r\nfooXY"), Err(RespError::InvalidProtocol)));
    assert!(matches!(parse(b"$-2\r\n"), Err(RespError::InvalidProtocol)));
    assert!(matches!(parse(b"*-2\r\n"), Err(RespError::InvalidProtocol)));
    assert!(matches!(parse(b"*1\r\n?\r\n"), Err(RespError::InvalidProtocol)));
}

#[test]
fn parse_reads_numbers_nulls_and_nesting() {
    assert_eq!(parse(b":-9223372036854775808\r\n").unwrap().0, RespValue::Integer(i64::MIN));
    assert_eq!(parse(b":+7\r\n").unwrap().0, RespValue::Integer(7));
    assert_eq!(parse(b":007\r\nrest").unwrap(), (RespValue::Integer(7), 6));
    assert_eq!(parse(b"$-1\r\n").unwrap().0, RespValue::Null);
    assert_eq!(parse(b"*-1\r\n").unwrap().0, RespValue::Null);
    assert_eq!(parse(b"*0\r\n").unwrap(), (RespValue::Array(vec![]), 4));
    assert_eq!(parse(b"$0\r\n\r\n").unwrap(), (RespValue::BulkString(Bytes::new()), 6));
    assert_eq!(parse(b"-ERR no\r\n").unwrap().0, RespValue::Error("ERR no".to_string()));
    assert_eq!(
        parse(b"+\xff\r\n").unwrap().0,
        RespValue::SimpleString("\u{fffd}".to_string())
    );
    let nested = b"*2\r\n*1\r\n:1\r\n$2\r\n\r\n\r\n";
    assert_eq!(
        parse(nested).unwrap(),
        (
            RespValue::Array(vec![
                RespValue::Array(vec![RespValue::Integer(1)]),
                RespValue::BulkString(Bytes::from("\r\n")),
            ]),
            nested.len()
        )
    );
}

#[test]
fn serialize_writes_every_kind_and_appends() {
    let value = RespValue::Array(vec![
        RespValue::Integer(-12),
        RespValue::Integer(i64::MIN),
        RespValue::BulkString(Bytes::from("hey")),
        RespValue::Error("E".to_string()),
        RespValue::Null,
        RespValue::Array(vec![]),
    ]);
    let mut buf = BytesMut::new();
    buf.extend_from_slice(b"x");
    value.serialize(&mut buf);
    assert_eq!(
        &buf[..],
        &b"x*6\r\n:-12\r\n:-9223372036854775808\r\n$3\r\nhey\r\n-E\r\n$-1\r\n*0\r\n"[..]
    );
    let (back, used) = parse(&buf[1..]).unwrap();
    assert_eq!(used, buf.len() - 1);
    assert_eq!(back.clone(), back);
    assert_eq!(back.as_bulk_string_array(), None);
}

#[test]
fn bulk_string_array_is_taken_apart() {
    let (value, _) = parse(b"*2\r\n$3\r\nfoo\r\n$0\r\n\r\n").unwrap();
    assert_eq!(value.as_bulk_string_array(), Some(vec![Bytes::from("foo"), Bytes::new()]));
    assert_eq!(RespValue::Integer(1).as_bulk_string_array(), None);
    assert_eq!(RespValue::Array(vec![]).as_bulk_string_array(), Some(vec![]));
}
