//! The encoder, and the answers to the commands that the server knows.

use vstd::prelude::*;
use vstd::utf8::{decode_utf8, encode_utf8_decode_utf8, valid_utf8};
use bytes::Bytes;
use core::ops::Deref;

use crate::buffer::shared_bytes;
use crate::decimal::{push_decimal, push_digits};
use crate::parser::RespOrig;
use crate::text::{ascii_bytes, upper_case, utf8_text};
use crate::wire::{
    encoding, encoding_all, Value, CR, LF, TAG_ARRAY, TAG_BULK, TAG_ERROR, TAG_INT, TAG_SIMPLE,
};

verus! {

/// What can be written as wire bytes.
pub trait ToResp {
    /// The bytes that `to_resp` gives.
    spec fn wire_form(&self) -> Seq<u8>;

    /// Writes `self` as wire bytes.
    fn to_resp(self) -> (out: Bytes)
        ensures
            shared_bytes(out) == self.wire_form(),
    ;
}

/// The values of a run of owned trees.
pub open spec fn values_of(items: Seq<RespOrig>) -> Seq<Value> {
    Seq::new(items.len(), |i: int| items[i]@)
}

/// Appends a terminator to `out`.
fn push_crlf(out: &mut Vec<u8>)
    ensures
        final(out)@ == old(out)@ + seq![CR, LF],
{
    out.push(CR);
    out.push(LF);
}

/// Appends a tag, a payload and a terminator to `out`.
fn push_line(out: &mut Vec<u8>, tag: u8, payload: &[u8])
    ensures
        final(out)@ == old(out)@ + (seq![tag] + payload@ + seq![CR, LF]),
{
    out.push(tag);
    out.extend_from_slice(payload);
    push_crlf(out);
}

/// Appends the encoding of `value` to `out`.
pub fn write_value(out: &mut Vec<u8>, value: &RespOrig)
    ensures
        final(out)@ == old(out)@ + encoding(value@),
    decreases *value,
{
    match value {
        RespOrig::String(bytes) => push_line(out, TAG_SIMPLE, bytes.deref()),
        RespOrig::Error(bytes) => push_line(out, TAG_ERROR, bytes.deref()),
        RespOrig::Int(val) => {
            out.push(TAG_INT);
            push_decimal(out, *val);
            push_crlf(out);
        },
        RespOrig::BulkString(bytes) => {
            let payload = bytes.deref();
            out.push(TAG_BULK);
            push_digits(out, payload.len() as u64);
            push_crlf(out);
            out.extend_from_slice(payload);
            push_crlf(out);
        },
        RespOrig::Array(items) => {
            write_array(out, items);
            assert(value@->Array_0 =~= values_of(items@));
        },
        RespOrig::NullArray => {
            out.push(TAG_ARRAY);
            push_decimal(out, -1);
            push_crlf(out);
        },
        RespOrig::NullBulkString => {
            out.push(TAG_BULK);
            push_decimal(out, -1);
            push_crlf(out);
        },
    }
}

/// Appends the encoding of the array of `items` to `out`: the count line,
/// then each item in turn.
pub fn write_array(out: &mut Vec<u8>, items: &Vec<RespOrig>)
    ensures
        final(out)@ == old(out)@ + encoding(Value::Array(values_of(items@))),
    decreases *items,
{
    out.push(TAG_ARRAY);
    push_digits(out, items.len() as u64);
    push_crlf(out);
    let ghost header = out@;
    let ghost values = values_of(items@);
    let mut i: usize = 0;
    while i < items.len()
        invariant
            i <= items.len(),
            values == values_of(items@),
            out@ == header + encoding_all(values.take(i as int)),
        decreases items.len() - i,
    {
        write_value(out, &items[i]);
        i += 1;
        proof {
            let upto = values.take(i as int);
            assert(upto.drop_last() =~= values.take(i - 1));
        }
    }
    assert(values.take(items.len() as int) =~= values);
}

/// The payload of a simple or bulk string; no other value has one.
pub open spec fn payload_of(v: Value) -> Option<Seq<u8>> {
    match v {
        Value::String(bytes) => Some(bytes),
        Value::BulkString(bytes) => Some(bytes),
        _ => None,
    }
}

/// The name under which a command is looked up: the payload of `v` in upper
/// case, where `v` is a string of valid UTF-8.
pub open spec fn command_name_of(v: Value) -> Option<Seq<char>> {
    match payload_of(v) {
        Some(bytes) => if valid_utf8(bytes) {
            Some(upper_case(decode_utf8(bytes)))
        } else {
            None
        },
        None => None,
    }
}

/// The answer to the command `items` whose name came out as `name`.
///
/// `PING` is answered with `PONG`. `ECHO` is answered with its argument as a
/// simple string, and not at all where it has none or one that is no
/// string. Every other command, and one without a name, gets an error.
pub open spec fn reply_to(items: Seq<Value>, name: Option<Seq<char>>) -> Option<Value> {
    if name == Some("PING"@) {
        Some(Value::String(ascii_bytes("PONG"@)))
    } else if name == Some("ECHO"@) {
        if items.len() > 1 {
            match payload_of(items[1]) {
                Some(bytes) => Some(Value::String(bytes)),
                None => None,
            }
        } else {
            None
        }
    } else {
        Some(Value::Error(ascii_bytes("ERR unknown command"@)))
    }
}

/// The answer to a request: that to its command where it is an array that is
/// not empty, and none to anything else.
pub open spec fn response_to(request: Value) -> Option<Value> {
    match request {
        Value::Array(items) => if items.len() == 0 {
            None
        } else {
            reply_to(items, command_name_of(items[0]))
        },
        _ => None,
    }
}

/// The characters of a name, where there is one.
pub open spec fn text_of(name: Option<String>) -> Option<Seq<char>> {
    match name {
        Some(text) => Some(text@),
        None => None,
    }
}

/// The bytes of `value` where it is a simple or bulk string.
fn payload(value: &RespOrig) -> (r: Option<&[u8]>)
    ensures
        match payload_of(value@) {
            Some(bytes) => r matches Some(slice) && slice@ == bytes,
            None => r is None,
        },
{
    match value {
        RespOrig::String(bytes) => Some(bytes.deref()),
        RespOrig::BulkString(bytes) => Some(bytes.deref()),
        _ => None,
    }
}

/// The name under which the command `first` is looked up.
pub fn command_name(first: &RespOrig) -> (name: Option<String>)
    ensures
        match command_name_of(first@) {
            Some(text) => name matches Some(n) && n@ == text,
            None => name is None,
        },
{
    match payload(first) {
        Some(bytes) => match utf8_text(bytes) {
            Some(text) => {
                proof {
                    encode_utf8_decode_utf8(text@);
                }
                Some(text.to_uppercase())
            },
            None => None,
        },
        None => None,
    }
}

/// A tag, the bytes of an ASCII text and a terminator, as a handle of their own.
fn line_of(tag: u8, text: &str) -> (out: Bytes)
    requires
        text.is_ascii(),
    ensures
        shared_bytes(out) == seq![tag] + ascii_bytes(text@) + seq![CR, LF],
{
    broadcast use vstd::string::is_ascii_spec_bytes;

    let mut buffer: Vec<u8> = Vec::new();
    push_line(&mut buffer, tag, text.as_bytes());
    Bytes::from(buffer)
}

/// Answers the command `items` whose name came out as `name`, in wire bytes:
/// the encoding of what `reply_to` gives.
pub fn reply(items: &Vec<RespOrig>, name: Option<String>) -> (r: Option<Bytes>)
    ensures
        match reply_to(values_of(items@), text_of(name)) {
            Some(answer) => r matches Some(bytes) && shared_bytes(bytes) == encoding(answer),
            None => r is None,
        },
{
    proof {
        reveal_strlit("PONG");
        reveal_strlit("ERR unknown command");
    }
    let is_ping = match &name {
        Some(n) => *n == "PING".to_owned(),
        None => false,
    };
    let is_echo = match &name {
        Some(n) => *n == "ECHO".to_owned(),
        None => false,
    };
    if is_ping {
        Some(line_of(TAG_SIMPLE, "PONG"))
    } else if is_echo {
        if items.len() > 1 {
            match payload(&items[1]) {
                Some(bytes) => {
                    let mut buffer: Vec<u8> = Vec::new();
                    push_line(&mut buffer, TAG_SIMPLE, bytes);
                    Some(Bytes::from(buffer))
                },
                None => None,
            }
        } else {
            None
        }
    } else {
        Some(line_of(TAG_ERROR, "ERR unknown command"))
    }
}

impl RespOrig {
    /// Answers a request, in wire bytes: the encoding of what `response_to`
    /// gives. Only an array that is not empty is a command and can have an
    /// answer.
    pub fn handle_command(self) -> (r: Option<Bytes>)
        ensures
            match response_to(self@) {
                Some(answer) => r matches Some(bytes) && shared_bytes(bytes) == encoding(answer),
                None => r is None,
            },
    {
        match self {
            RespOrig::Array(items) => {
                if items.len() == 0 {
                    return None;
                }
                let name = command_name(&items[0]);
                reply(&items, name)
            },
            _ => None,
        }
    }
}

impl ToResp for RespOrig {
    open spec fn wire_form(&self) -> Seq<u8> {
        encoding(self@)
    }

    fn to_resp(self) -> (out: Bytes) {
        let mut buffer: Vec<u8> = Vec::new();
        write_value(&mut buffer, &self);
        Bytes::from(buffer)
    }
}

impl ToResp for Vec<RespOrig> {
    open spec fn wire_form(&self) -> Seq<u8> {
        encoding(Value::Array(values_of(self@)))
    }

    fn to_resp(self) -> (out: Bytes) {
        let mut buffer: Vec<u8> = Vec::new();
        write_array(&mut buffer, &self);
        Bytes::from(buffer)
    }
}

} // verus!
