//! The decoder: from the bytes of a buffer to frames.
//!
//! Reading goes in two steps. [`RespParser::parse`] finds one frame at an
//! offset and describes it as a [`Resp`], a tree whose payloads are spans of
//! the buffer, so that nothing is copied while the frame may still turn out
//! to be incomplete. [`Resp::redis_value`] then turns a complete tree into a
//! [`RespOrig`], whose payloads are handles of their own on the frame's bytes.
//! [`RespParser::decode`] does both and takes the frame's bytes off the buffer.

use vstd::prelude::*;
use vstd::slice::slice_subrange;
use bytes::{Bytes, BytesMut};
use core::ops::Deref;

use crate::buffer::{buffer_bytes, shared_bytes, slice_of};
use crate::decimal::parse_i64;
use crate::scan::next_crlf;
use crate::wire::{
    array_at, bulk_string_at, error_at, frame_at, int_at, items_at, lemma_frame_advances,
    lemma_items_stuck, lemma_materialize_prefix, materialize, resp_int_at, simple_string_at,
    within, word_at, Decoded, Span, Tree, Value, CR, LF, TAG_ARRAY, TAG_BULK, TAG_ERROR, TAG_INT,
    TAG_SIMPLE,
};

verus! {

/// A span of a buffer: the offset of its first byte, and the offset just
/// past its last.
#[derive(Debug, PartialEq)]
pub struct BufSplit(pub usize, pub usize);

impl Clone for BufSplit {
    fn clone(&self) -> (copy: Self)
        ensures
            copy == *self,
    {
        BufSplit(self.0, self.1)
    }
}

impl View for BufSplit {
    type V = Span;

    open spec fn view(&self) -> Span {
        Span { start: self.0 as int, end: self.1 as int }
    }
}

/// One frame as it lies in a buffer. A string or an error is the span of
/// its payload, an array is its items in order.
#[derive(PartialEq, Debug)]
pub enum Resp {
    String(BufSplit),
    BufString(BufSplit),
    Error(BufSplit),
    Array(Vec<Resp>),
    Int(i64),
    NullArray,
    NullBulkString,
}

/// The tree that a parse result stands for: its spans as ranges of integers,
/// its arrays as sequences.
pub open spec fn tree_of(r: Resp) -> Tree
    decreases r,
{
    match r {
        Resp::String(span) => Tree::String(span@),
        Resp::BufString(span) => Tree::BufString(span@),
        Resp::Error(span) => Tree::Error(span@),
        Resp::Array(items) => Tree::Array(
            Seq::new(
                items@.len(),
                |i: int|
                    if 0 <= i < items@.len() {
                        tree_of(items@[i])
                    } else {
                        Tree::NullArray
                    },
            ),
        ),
        Resp::Int(i) => Tree::Int(i),
        Resp::NullArray => Tree::NullArray,
        Resp::NullBulkString => Tree::NullBulkString,
    }
}

impl View for Resp {
    type V = Tree;

    open spec fn view(&self) -> Tree {
        tree_of(*self)
    }
}

impl Clone for Resp {
    fn clone(&self) -> (copy: Self)
        ensures
            copy@ == self@,
        decreases *self,
    {
        match self {
            Resp::String(span) => Resp::String(span.clone()),
            Resp::BufString(span) => Resp::BufString(span.clone()),
            Resp::Error(span) => Resp::Error(span.clone()),
            Resp::Array(items) => {
                let mut copies: Vec<Resp> = Vec::new();
                let mut i: usize = 0;
                while i < items.len()
                    invariant
                        *self == Resp::Array(*items),
                        i <= items.len(),
                        copies.len() == i,
                        forall|j: int| 0 <= j < i ==> (#[trigger] copies@[j])@ == items@[j]@,
                    decreases items.len() - i,
                {
                    proof {
                        assert(decreases_to!(self->Array_0@ => self->Array_0@[i as int]));
                    }
                    let item = items[i].clone();
                    copies.push(item);
                    i += 1;
                }
                let copy = Resp::Array(copies);
                assert(copy@->Array_0 =~= self@->Array_0);
                copy
            },
            Resp::Int(i) => Resp::Int(*i),
            Resp::NullArray => Resp::NullArray,
            Resp::NullBulkString => Resp::NullBulkString,
        }
    }
}

/// `std::io::Error`, which an error of the transport is carried in. Nothing
/// is known of what it holds.
#[verifier::external_type_specification]
#[verifier::external_body]
pub struct ExIoError(std::io::Error);

/// Why a connection cannot go on. The decoder gives `UnknownStartingByte`,
/// `IntParseFailure`, `BadBulkStringSize` and `BadArraySize`, each for input
/// that no further bytes can mend; `IOError` is for the transport.
#[derive(Debug)]
pub enum RESPError {
    UnexpectedEnd,
    UnknownStartingByte,
    IOError(std::io::Error),
    IntParseFailure,
    BadBulkStringSize(i64),
    BadArraySize(i64),
}

impl From<std::io::Error> for RESPError {
    fn from(err: std::io::Error) -> (e: Self) {
        RESPError::IOError(err)
    }
}

impl vstd::std_specs::convert::FromSpecImpl<std::io::Error> for RESPError {
    open spec fn obeys_from_spec() -> bool {
        true
    }

    open spec fn from_spec(err: std::io::Error) -> Self {
        RESPError::IOError(err)
    }
}

/// One frame with payloads of its own: it can outlive the buffer it was
/// read from.
#[derive(Debug)]
pub enum RespOrig {
    String(Bytes),
    BulkString(Bytes),
    Error(Bytes),
    Int(i64),
    Array(Vec<RespOrig>),
    NullArray,
    NullBulkString,
}

/// The value that an owned tree stands for: its payloads as byte sequences,
/// its arrays as sequences.
pub open spec fn value_of(v: RespOrig) -> Value
    decreases v,
{
    match v {
        RespOrig::String(b) => Value::String(shared_bytes(b)),
        RespOrig::BulkString(b) => Value::BulkString(shared_bytes(b)),
        RespOrig::Error(b) => Value::Error(shared_bytes(b)),
        RespOrig::Int(i) => Value::Int(i),
        RespOrig::Array(items) => Value::Array(
            Seq::new(
                items@.len(),
                |i: int|
                    if 0 <= i < items@.len() {
                        value_of(items@[i])
                    } else {
                        Value::NullArray
                    },
            ),
        ),
        RespOrig::NullArray => Value::NullArray,
        RespOrig::NullBulkString => Value::NullBulkString,
    }
}

impl View for RespOrig {
    type V = Value;

    open spec fn view(&self) -> Value {
        value_of(*self)
    }
}

/// The decoder. It keeps nothing between calls: all that is known of a
/// connection is in its buffer.
#[derive(Default)]
pub struct RespParser;

/// What reading at an offset gives: the offset just past a complete frame
/// and the frame, or `None` where the buffer ends too early, or the reason
/// why no frame can stand there.
pub type RedisResult = Result<Option<(usize, Resp)>, RESPError>;

/// What a parse result says, in the terms of the model.
pub open spec fn outcome(r: RedisResult) -> Decoded<Tree> {
    match r {
        Ok(Some((next, tree))) => Decoded::Complete(next as int, tree@),
        Ok(None) => Decoded::Incomplete,
        Err(e) => Decoded::Malformed(e),
    }
}

/// What the result of reading a number says, in the terms of the model.
pub open spec fn int_outcome(r: Result<Option<(usize, i64)>, RESPError>) -> Decoded<i64> {
    match r {
        Ok(Some((next, v))) => Decoded::Complete(next as int, v),
        Ok(None) => Decoded::Incomplete,
        Err(e) => Decoded::Malformed(e),
    }
}

impl BufSplit {
    /// The bytes of `buf` that this span covers.
    pub fn as_slice<'a>(&self, buf: &'a BytesMut) -> (part: &'a [u8])
        requires
            self.0 <= self.1 <= buffer_bytes(*buf).len(),
        ensures
            part@ == buffer_bytes(*buf).subrange(self.0 as int, self.1 as int),
    {
        slice_subrange(buf.deref(), self.0, self.1)
    }

    /// A handle of its own on the bytes of `buf` that this span covers.
    pub fn as_bytes(&self, buf: &Bytes) -> (part: Bytes)
        requires
            self.0 <= self.1 <= shared_bytes(*buf).len(),
        ensures
            shared_bytes(part) == shared_bytes(*buf).subrange(self.0 as int, self.1 as int),
    {
        slice_of(buf, self.0, self.1)
    }
}

impl Resp {
    /// Turns the tree into a value that owns its bytes: each span becomes a
    /// handle on the bytes of `buf` that it covers.
    pub fn redis_value(self, buf: &Bytes) -> (v: RespOrig)
        requires
            within(self@, shared_bytes(*buf).len() as int),
        ensures
            v@ == materialize(self@, shared_bytes(*buf)),
    {
        self.value_in(buf)
    }

    /// `redis_value` on a borrowed tree.
    fn value_in(&self, buf: &Bytes) -> (v: RespOrig)
        requires
            within(self@, shared_bytes(*buf).len() as int),
        ensures
            v@ == materialize(self@, shared_bytes(*buf)),
        decreases *self,
    {
        match self {
            Resp::String(span) => RespOrig::String(span.as_bytes(buf)),
            Resp::BufString(span) => RespOrig::BulkString(span.as_bytes(buf)),
            Resp::Error(span) => RespOrig::Error(span.as_bytes(buf)),
            Resp::Array(items) => {
                let mut values: Vec<RespOrig> = Vec::new();
                let mut i: usize = 0;
                while i < items.len()
                    invariant
                        *self == Resp::Array(*items),
                        within(self@, shared_bytes(*buf).len() as int),
                        i <= items.len(),
                        values.len() == i,
                        forall|j: int|
                            0 <= j < i ==> (#[trigger] values@[j])@ == materialize(
                                items@[j]@,
                                shared_bytes(*buf),
                            ),
                    decreases items.len() - i,
                {
                    proof {
                        assert(self@->Array_0[i as int] == items@[i as int]@);
                    }
                    let value = items[i].value_in(buf);
                    values.push(value);
                    i += 1;
                }
                let v = RespOrig::Array(values);
                assert(v@->Array_0 =~= materialize(self@, shared_bytes(*buf))->Array_0);
                v
            },
            Resp::Int(i) => RespOrig::Int(*i),
            Resp::NullArray => RespOrig::NullArray,
            Resp::NullBulkString => RespOrig::NullBulkString,
        }
    }
}

impl RespParser {
    /// Takes one frame off the front of `src`.
    ///
    /// Where `src` starts with a complete frame, the frame's bytes leave the
    /// buffer and the frame is returned as a value of its own; what stood
    /// behind it is now the front of the buffer. Otherwise the buffer is left as
    /// it is: `Ok(None)` where more bytes may complete a frame, the error where
    /// none can.
    pub fn decode(&mut self, src: &mut BytesMut) -> (r: Result<Option<RespOrig>, RESPError>)
        ensures
            match frame_at(buffer_bytes(*old(src)), 0) {
                Decoded::Complete(next, tree) => {
                    &&& r matches Ok(Some(value))
                    &&& value@ == materialize(tree, buffer_bytes(*old(src)))
                    &&& buffer_bytes(*final(src)) == buffer_bytes(*old(src)).skip(next)
                },
                Decoded::Incomplete => {
                    &&& r matches Ok(None)
                    &&& buffer_bytes(*final(src)) == buffer_bytes(*old(src))
                },
                Decoded::Malformed(e) => {
                    &&& r == Err::<Option<RespOrig>, RESPError>(e)
                    &&& buffer_bytes(*final(src)) == buffer_bytes(*old(src))
                },
            },
    {
        match RespParser::parse(src, 0) {
            Ok(Some((pos, value))) => {
                proof {
                    lemma_materialize_prefix(value@, buffer_bytes(*src), pos as int);
                }
                let data = src.split_to(pos);
                let result = value.redis_value(&data.freeze());
                Ok(Some(result))
            },
            Ok(None) => Ok(None),
            Err(e) => Err(e),
        }
    }

    /// Finds the token that starts at `pos`: the offset just past its
    /// terminator, and the span before the terminator. There is none as long
    /// as the buffer holds no terminator from `pos` on.
    pub fn word(buf: &BytesMut, pos: usize) -> (r: Option<(usize, BufSplit)>)
        ensures
            match word_at(buffer_bytes(*buf), pos as int) {
                Some((next, span)) => r matches Some((n, w)) && n == next && w@ == span,
                None => r is None,
            },
    {
        match next_crlf(buf.deref(), pos) {
            Some(end) => Some((end + 2, BufSplit(pos, end))),
            None => None,
        }
    }

    /// Reads the frame that starts at `pos`, which its first byte tells the
    /// kind of. Nothing is read where the buffer ends at or before `pos`.
    ///
    /// A complete frame ends inside the buffer, and so do all its spans.
    pub fn parse(buf: &BytesMut, pos: usize) -> (r: RedisResult)
        ensures
            outcome(r) == frame_at(buffer_bytes(*buf), pos as int),
            r matches Ok(Some((next, tree))) ==> pos < next <= buffer_bytes(*buf).len() && within(
                tree@,
                next as int,
            ),
        decreases buffer_bytes(*buf).len() - pos, 0nat,
    {
        let bytes = buf.deref();
        if pos >= bytes.len() {
            return Ok(None);
        }
        proof {
            lemma_frame_advances(buffer_bytes(*buf), pos as int);
        }
        let tag = bytes[pos];
        if tag == TAG_SIMPLE {
            simple_string(buf, pos + 1)
        } else if tag == TAG_ERROR {
            error(buf, pos + 1)
        } else if tag == TAG_BULK {
            bulk_string(buf, pos + 1)
        } else if tag == TAG_INT {
            resp_int(buf, pos + 1)
        } else if tag == TAG_ARRAY {
            array(buf, pos + 1)
        } else {
            Err(RESPError::UnknownStartingByte)
        }
    }
}

/// Reads what follows the tag of a simple string.
pub fn simple_string(buf: &BytesMut, pos: usize) -> (r: RedisResult)
    ensures
        outcome(r) == simple_string_at(buffer_bytes(*buf), pos as int),
{
    match RespParser::word(buf, pos) {
        Some((next, word)) => Ok(Some((next, Resp::String(word)))),
        None => Ok(None),
    }
}

/// Reads what follows the tag of an error.
pub fn error(buf: &BytesMut, pos: usize) -> (r: RedisResult)
    ensures
        outcome(r) == error_at(buffer_bytes(*buf), pos as int),
{
    match RespParser::word(buf, pos) {
        Some((next, word)) => Ok(Some((next, Resp::Error(word)))),
        None => Ok(None),
    }
}

/// Reads what follows the tag of an integer.
pub fn resp_int(buf: &BytesMut, pos: usize) -> (r: RedisResult)
    ensures
        outcome(r) == resp_int_at(buffer_bytes(*buf), pos as int),
{
    match integer(buf, pos) {
        Ok(Some((next, value))) => Ok(Some((next, Resp::Int(value)))),
        Ok(None) => Ok(None),
        Err(e) => Err(e),
    }
}

/// Reads what follows the tag of a bulk string: the length, then as many
/// bytes and a terminator. Until all of them are there the frame is
/// incomplete.
pub fn bulk_string(buf: &BytesMut, pos: usize) -> (r: RedisResult)
    ensures
        outcome(r) == bulk_string_at(buffer_bytes(*buf), pos as int),
{
    match integer(buf, pos) {
        Ok(Some((start, size))) => {
            if size == -1 {
                Ok(Some((start, Resp::NullBulkString)))
            } else if size < -1 {
                Err(RESPError::BadBulkStringSize(size))
            } else {
                let bytes = buf.deref();
                let len = bytes.len();
                // `start <= len`, and the payload with its terminator must fit behind it
                if len - start < 2 || ((len - start - 2) as u64) < size as u64 {
                    return Ok(None);
                }
                let end: usize = start + size as usize;
                if bytes[end] == CR && bytes[end + 1] == LF {
                    Ok(Some((end + 2, Resp::BufString(BufSplit(start, end)))))
                } else {
                    Ok(None)
                }
            }
        },
        Ok(None) => Ok(None),
        Err(e) => Err(e),
    }
}

/// The trees of a run of parse results.
pub open spec fn trees_of(items: Seq<Resp>) -> Seq<Tree> {
    Seq::new(items.len(), |i: int| items[i]@)
}

/// Reads what follows the tag of an array: the count, then as many frames.
/// The first item that is not complete decides for the array.
pub fn array(buf: &BytesMut, pos: usize) -> (r: RedisResult)
    ensures
        outcome(r) == array_at(buffer_bytes(*buf), pos as int),
    decreases buffer_bytes(*buf).len() - pos, 1nat,
{
    match integer(buf, pos) {
        Ok(Some((start, count))) => {
            if count == -1 {
                Ok(Some((start, Resp::NullArray)))
            } else if count < -1 {
                Err(RESPError::BadArraySize(count))
            } else {
                let ghost s = buffer_bytes(*buf);
                let mut values: Vec<Resp> = Vec::new();
                let mut curr_pos: usize = start;
                let mut i: i64 = 0;
                assert(trees_of(values@) =~= Seq::<Tree>::empty());
                while i < count
                    invariant
                        s == buffer_bytes(*buf),
                        int_at(s, pos as int) == Decoded::Complete(start as int, count),
                        pos < start <= curr_pos <= s.len(),
                        0 <= i <= count,
                        items_at(s, start as int, i as nat) == Decoded::Complete(
                            curr_pos as int,
                            trees_of(values@),
                        ),
                    decreases count - i,
                {
                    let ghost before = values@;
                    match RespParser::parse(buf, curr_pos) {
                        Ok(Some((next, item))) => {
                            curr_pos = next;
                            values.push(item);
                            assert(trees_of(values@) =~= trees_of(before).push(item@));
                        },
                        Ok(None) => {
                            proof {
                                lemma_items_stuck(s, start as int, (i + 1) as nat, count as nat);
                            }
                            return Ok(None);
                        },
                        Err(e) => {
                            proof {
                                lemma_items_stuck(s, start as int, (i + 1) as nat, count as nat);
                            }
                            return Err(e);
                        },
                    }
                    i += 1;
                }
                let tree = Resp::Array(values);
                assert(tree@->Array_0 =~= trees_of(values@));
                Ok(Some((curr_pos, tree)))
            }
        },
        Ok(None) => Ok(None),
        Err(e) => Err(e),
    }
}

/// Reads the line of signed decimal text that starts at `pos`. A line that
/// is all there and is no number that fits an `i64` is an error.
pub fn integer(buf: &BytesMut, pos: usize) -> (r: Result<Option<(usize, i64)>, RESPError>)
    ensures
        int_outcome(r) == int_at(buffer_bytes(*buf), pos as int),
{
    match RespParser::word(buf, pos) {
        Some((next, word)) => {
            match parse_i64(word.as_slice(buf)) {
                Some(value) => Ok(Some((next, value))),
                None => Err(RESPError::IntParseFailure),
            }
        },
        None => Ok(None),
    }
}

} // verus!
