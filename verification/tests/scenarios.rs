use bytes::{Bytes, BytesMut};
use codecrafters_redis::handler::ToResp;
use codecrafters_redis::parser::{RESPError, RespOrig, RespParser};

fn decode_all(input: &[u8]) -> (Result<Option<RespOrig>, RESPError>, BytesMut) {
    let mut buf = BytesMut::from(input);
    let mut parser = RespParser::default();
    let result = parser.decode(&mut buf);
    (result, buf)
}

fn decoded(input: &[u8]) -> RespOrig {
    match decode_all(input) {
        (Ok(Some(value)), _) => value,
        (other, _) => panic!("not a complete frame: {:?}", other),
    }
}

fn respond(input: &[u8]) -> Option<Bytes> {
    decoded(input).handle_command()
}

#[test]
fn ping_is_answered_with_pong() {
    let answer = respond(b"*1\r\n$4\r\nPING\r\n");
    assert_eq!(answer, Some(Bytes::from_static(b"+PONG\r\n")));
}

#[test]
fn echo_is_answered_with_its_argument() {
    let answer = respond(b"*2\r\n$4\r\nECHO\r\n$3\r\nhey\r\n");
    assert_eq!(answer, Some(Bytes::from_static(b"+hey\r\n")));
}

#[test]
fn missing_line_feed_is_incomplete() {
    let (result, rest) = decode_all(b"*1\r\n$4\r\nPING\r");
    assert!(matches!(result, Ok(None)));
    assert_eq!(&rest[..], b"*1\r\n$4\r\nPING\r");
}

#[test]
fn bulk_string_size_below_minus_one_is_refused() {
    let (result, _) = decode_all(b"$-2\r\n");
    assert!(matches!(result, Err(RESPError::BadBulkStringSize(-2))));
}

#[test]
fn empty_bulk_string_is_not_null() {
    match decoded(b"$0\r\n\r\n") {
        RespOrig::BulkString(bytes) => assert!(bytes.is_empty()),
        other => panic!("unexpected {:?}", other),
    }
}

#[test]
fn minus_one_is_the_null_bulk_string() {
    assert!(matches!(decoded(b"$-1\r\n"), RespOrig::NullBulkString));
}

#[test]
fn minus_one_is_the_null_array() {
    assert!(matches!(decoded(b"*-1\r\n"), RespOrig::NullArray));
}

#[test]
fn zero_is_the_empty_array() {
    match decoded(b"*0\r\n") {
        RespOrig::Array(items) => assert!(items.is_empty()),
        other => panic!("unexpected {:?}", other),
    }
}

#[test]
fn command_names_are_matched_without_regard_to_case() {
    assert_eq!(respond(b"*1\r\n$4\r\nping\r\n"), Some(Bytes::from_static(b"+PONG\r\n")));
    assert_eq!(respond(b"*1\r\n$4\r\nPiNg\r\n"), Some(Bytes::from_static(b"+PONG\r\n")));
    assert_eq!(
        respond(b"*2\r\n$4\r\necho\r\n$2\r\nhi\r\n"),
        Some(Bytes::from_static(b"+hi\r\n"))
    );
}

#[test]
fn command_name_may_be_a_simple_string() {
    assert_eq!(respond(b"*1\r\n+PING\r\n"), Some(Bytes::from_static(b"+PONG\r\n")));
    assert_eq!(respond(b"*2\r\n+ECHO\r\n+yo\r\n"), Some(Bytes::from_static(b"+yo\r\n")));
}

#[test]
fn unknown_command_is_answered_with_an_error() {
    assert_eq!(
        respond(b"*1\r\n$3\r\nGET\r\n"),
        Some(Bytes::from_static(b"-ERR unknown command\r\n"))
    );
}

#[test]
fn command_that_is_no_string_is_unknown() {
    assert_eq!(
        respond(b"*1\r\n:5\r\n"),
        Some(Bytes::from_static(b"-ERR unknown command\r\n"))
    );
}

#[test]
fn command_that_is_no_text_is_unknown() {
    assert_eq!(
        respond(b"*1\r\n$4\r\nPIN\xff\r\n"),
        Some(Bytes::from_static(b"-ERR unknown command\r\n"))
    );
}

#[test]
fn echo_without_argument_has_no_answer() {
    assert_eq!(respond(b"*1\r\n$4\r\nECHO\r\n"), None);
}

#[test]
fn echo_of_what_is_no_string_has_no_answer() {
    assert_eq!(respond(b"*2\r\n$4\r\nECHO\r\n:7\r\n"), None);
}

#[test]
fn empty_array_has_no_answer() {
    assert_eq!(respond(b"*0\r\n"), None);
}

#[test]
fn what_is_no_array_has_no_answer() {
    assert_eq!(respond(b"+PING\r\n"), None);
    assert_eq!(respond(b"$4\r\nPING\r\n"), None);
    assert_eq!(respond(b"-oops\r\n"), None);
    assert_eq!(respond(b":12\r\n"), None);
    assert_eq!(respond(b"*-1\r\n"), None);
    assert_eq!(respond(b"$-1\r\n"), None);
}

#[test]
fn answer_is_the_encoding_of_a_simple_string() {
    let answer = respond(b"*2\r\n$4\r\nECHO\r\n$5\r\nhello\r\n");
    let expected = RespOrig::String(Bytes::from_static(b"hello")).to_resp();
    assert_eq!(answer, Some(expected));
}

#[test]
fn frames_are_taken_one_by_one() {
    let mut buf = BytesMut::from(&b"*1\r\n$4\r\nPING\r\n*2\r\n$4\r\nECHO\r\n$3\r\nhey\r\n+tail"[..]);
    let mut parser = RespParser::default();

    let first = parser.decode(&mut buf).unwrap().unwrap();
    assert_eq!(&buf[..], b"*2\r\n$4\r\nECHO\r\n$3\r\nhey\r\n+tail");
    assert_eq!(first.handle_command(), Some(Bytes::from_static(b"+PONG\r\n")));

    let second = parser.decode(&mut buf).unwrap().unwrap();
    assert_eq!(&buf[..], b"+tail");
    assert_eq!(second.handle_command(), Some(Bytes::from_static(b"+hey\r\n")));

    assert!(matches!(parser.decode(&mut buf), Ok(None)));
    assert_eq!(&buf[..], b"+tail");
}
