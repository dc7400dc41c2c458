use bytes::{Bytes, BytesMut};
use codecrafters_redis::handler::{command_name, reply, write_array, write_value, ToResp};
use codecrafters_redis::parser::{RespOrig, RespParser};

fn text(s: &'static str) -> Bytes {
    Bytes::from_static(s.as_bytes())
}

fn round_trip(value: RespOrig) {
    let shown = format!("{:?}", value);
    let wire = value.to_resp();
    let mut buf = BytesMut::from(&wire[..]);
    let mut parser = RespParser::default();
    let back = parser.decode(&mut buf).unwrap().unwrap();
    assert_eq!(format!("{:?}", back), shown);
    assert!(buf.is_empty());
}

fn fed_in_two_parts(value: RespOrig) {
    let shown = format!("{:?}", value);
    let wire = value.to_resp();
    for cut in 1..wire.len() {
        let mut buf = BytesMut::from(&wire[..cut]);
        let mut parser = RespParser::default();
        assert!(matches!(parser.decode(&mut buf), Ok(None)), "cut at {}", cut);
        assert_eq!(&buf[..], &wire[..cut]);
        buf.extend_from_slice(&wire[cut..]);
        let back = parser.decode(&mut buf).unwrap().unwrap();
        assert_eq!(format!("{:?}", back), shown);
        assert!(buf.is_empty());
    }
}

fn sample() -> RespOrig {
    RespOrig::Array(vec![
        RespOrig::BulkString(text("SET")),
        RespOrig::String(text("key")),
        RespOrig::Int(-12),
        RespOrig::Array(vec![RespOrig::NullBulkString, RespOrig::Error(text("ERR x"))]),
        RespOrig::NullArray,
        RespOrig::BulkString(Bytes::new()),
        RespOrig::BulkString(text("two\r\nlines")),
        RespOrig::Array(vec![]),
    ])
}

#[test]
fn simple_string_is_written() {
    assert_eq!(RespOrig::String(text("OK")).to_resp(), text("+OK\r\n"));
    assert_eq!(RespOrig::String(Bytes::new()).to_resp(), text("+\r\n"));
}

#[test]
fn error_is_written() {
    assert_eq!(RespOrig::Error(text("ERR unknown command")).to_resp(), text("-ERR unknown command\r\n"));
}

#[test]
fn integer_is_written() {
    assert_eq!(RespOrig::Int(0).to_resp(), text(":0\r\n"));
    assert_eq!(RespOrig::Int(1000).to_resp(), text(":1000\r\n"));
    assert_eq!(RespOrig::Int(-7).to_resp(), text(":-7\r\n"));
    assert_eq!(RespOrig::Int(i64::MAX).to_resp(), text(":9223372036854775807\r\n"));
    assert_eq!(RespOrig::Int(i64::MIN).to_resp(), text(":-9223372036854775808\r\n"));
}

#[test]
fn bulk_string_is_written_with_its_length() {
    assert_eq!(RespOrig::BulkString(text("hello")).to_resp(), text("$5\r\nhello\r\n"));
    assert_eq!(RespOrig::BulkString(text("hello\r\nworld")).to_resp(), text("$12\r\nhello\r\nworld\r\n"));
    assert_eq!(RespOrig::BulkString(Bytes::from(vec![0u8; 100])).to_resp().len(), 108);
}

#[test]
fn empty_bulk_string_is_written_with_length_zero() {
    assert_eq!(RespOrig::BulkString(Bytes::new()).to_resp(), text("$0\r\n\r\n"));
}

#[test]
fn nulls_are_written_with_minus_one() {
    assert_eq!(RespOrig::NullArray.to_resp(), text("*-1\r\n"));
    assert_eq!(RespOrig::NullBulkString.to_resp(), text("$-1\r\n"));
}

#[test]
fn array_is_written_with_its_count_and_items() {
    let value = RespOrig::Array(vec![
        RespOrig::BulkString(text("ECHO")),
        RespOrig::BulkString(text("hey")),
    ]);
    assert_eq!(value.to_resp(), text("*2\r\n$4\r\nECHO\r\n$3\r\nhey\r\n"));
    assert_eq!(RespOrig::Array(vec![]).to_resp(), text("*0\r\n"));
}

#[test]
fn nested_array_is_written_in_order() {
    let value = RespOrig::Array(vec![
        RespOrig::Int(1),
        RespOrig::Array(vec![RespOrig::String(text("a")), RespOrig::NullArray]),
        RespOrig::Error(text("e")),
    ]);
    assert_eq!(value.to_resp(), text("*3\r\n:1\r\n*2\r\n+a\r\n*-1\r\n-e\r\n"));
}

#[test]
fn vector_is_written_as_an_array() {
    let items = vec![RespOrig::Int(1), RespOrig::Int(2)];
    assert_eq!(items.to_resp(), text("*2\r\n:1\r\n:2\r\n"));
    let none: Vec<RespOrig> = vec![];
    assert_eq!(none.to_resp(), text("*0\r\n"));
    let many: Vec<RespOrig> = (0..12).map(RespOrig::Int).collect();
    assert!(many.to_resp().starts_with(b"*12\r\n:0\r\n"));
}

#[test]
fn encoding_is_appended_to_what_is_there() {
    let mut out = b"abc".to_vec();
    write_value(&mut out, &RespOrig::Int(5));
    assert_eq!(out, b"abc:5\r\n");
    write_array(&mut out, &vec![RespOrig::NullBulkString]);
    assert_eq!(out, b"abc:5\r\n*1\r\n$-1\r\n");
}

#[test]
fn every_kind_of_value_comes_back() {
    round_trip(RespOrig::String(text("OK")));
    round_trip(RespOrig::String(Bytes::new()));
    round_trip(RespOrig::String(text("with\rreturn")));
    round_trip(RespOrig::String(text("ends with return\r")));
    round_trip(RespOrig::Error(text("ERR something")));
    round_trip(RespOrig::Int(0));
    round_trip(RespOrig::Int(i64::MAX));
    round_trip(RespOrig::Int(i64::MIN));
    round_trip(RespOrig::BulkString(text("hello")));
    round_trip(RespOrig::BulkString(Bytes::new()));
    round_trip(RespOrig::BulkString(text("\r\n\r\n")));
    round_trip(RespOrig::BulkString(Bytes::from(vec![0u8, 255, 13, 10, 36, 42])));
    round_trip(RespOrig::NullArray);
    round_trip(RespOrig::NullBulkString);
    round_trip(RespOrig::Array(vec![]));
    round_trip(sample());
}

#[test]
fn simple_string_with_a_terminator_does_not_come_back() {
    let wire = RespOrig::String(text("a\r\nb")).to_resp();
    assert_eq!(wire, text("+a\r\nb\r\n"));
    let mut buf = BytesMut::from(&wire[..]);
    let mut parser = RespParser::default();
    match parser.decode(&mut buf) {
        Ok(Some(RespOrig::String(bytes))) => assert_eq!(&bytes[..], b"a"),
        other => panic!("unexpected {:?}", other),
    }
    assert_eq!(&buf[..], b"b\r\n");
}

#[test]
fn frame_in_two_parts_is_incomplete_then_complete() {
    fed_in_two_parts(RespOrig::String(text("OK")));
    fed_in_two_parts(RespOrig::Error(text("ERR a\rb")));
    fed_in_two_parts(RespOrig::Int(-1234));
    fed_in_two_parts(RespOrig::BulkString(text("hello\r\nworld")));
    fed_in_two_parts(RespOrig::BulkString(Bytes::new()));
    fed_in_two_parts(RespOrig::NullArray);
    fed_in_two_parts(RespOrig::NullBulkString);
    fed_in_two_parts(RespOrig::Array(vec![]));
    fed_in_two_parts(sample());
}

#[test]
fn command_name_is_in_upper_case() {
    assert_eq!(command_name(&RespOrig::BulkString(text("ping"))), Some("PING".to_string()));
    assert_eq!(command_name(&RespOrig::String(text("Echo"))), Some("ECHO".to_string()));
    assert_eq!(command_name(&RespOrig::BulkString(text("stra\u{df}e"))), Some("STRASSE".to_string()));
    assert_eq!(command_name(&RespOrig::BulkString(Bytes::new())), Some(String::new()));
}

#[test]
fn only_a_string_of_text_has_a_command_name() {
    assert_eq!(command_name(&RespOrig::BulkString(Bytes::from(vec![0xc3u8, 0x28]))), None);
    assert_eq!(command_name(&RespOrig::Error(text("PING"))), None);
    assert_eq!(command_name(&RespOrig::Int(1)), None);
    assert_eq!(command_name(&RespOrig::Array(vec![])), None);
    assert_eq!(command_name(&RespOrig::NullArray), None);
    assert_eq!(command_name(&RespOrig::NullBulkString), None);
}

#[test]
fn reply_goes_by_the_name_it_is_given() {
    let items = vec![RespOrig::BulkString(text("anything")), RespOrig::BulkString(text("arg"))];
    assert_eq!(reply(&items, Some("PING".to_string())), Some(text("+PONG\r\n")));
    assert_eq!(reply(&items, Some("ECHO".to_string())), Some(text("+arg\r\n")));
    assert_eq!(reply(&items, Some("ping".to_string())), Some(text("-ERR unknown command\r\n")));
    assert_eq!(reply(&items, Some(String::new())), Some(text("-ERR unknown command\r\n")));
    assert_eq!(reply(&items, None), Some(text("-ERR unknown command\r\n")));
}

#[test]
fn echo_answers_with_its_first_argument_only() {
    let items = vec![
        RespOrig::BulkString(text("ECHO")),
        RespOrig::String(text("one")),
        RespOrig::BulkString(text("two")),
    ];
    assert_eq!(reply(&items, Some("ECHO".to_string())), Some(text("+one\r\n")));
    let alone = vec![RespOrig::BulkString(text("ECHO"))];
    assert_eq!(reply(&alone, Some("ECHO".to_string())), None);
    let wrong = vec![RespOrig::BulkString(text("ECHO")), RespOrig::NullBulkString];
    assert_eq!(reply(&wrong, Some("ECHO".to_string())), None);
}
