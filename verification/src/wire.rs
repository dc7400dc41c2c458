//! The mathematical model of RESP frames: what a buffer holds at an offset,
//! and how a value is written.
//!
//! Offsets are integers and buffers are sequences of bytes, so nothing here
//! can overflow or run out of bounds. The executable decoder and encoder are
//! specified against these functions.

use vstd::prelude::*;

use crate::decimal::{decimal_text, i64_value};
use crate::parser::RESPError;

verus! {

/// Carriage return, the first byte of a terminator.
pub const CR: u8 = 0x0d;

/// Line feed, the second byte of a terminator.
pub const LF: u8 = 0x0a;

/// `+`, the first byte of a simple string.
pub const TAG_SIMPLE: u8 = 0x2b;

/// `-`, the first byte of an error.
pub const TAG_ERROR: u8 = 0x2d;

/// `:`, the first byte of an integer.
pub const TAG_INT: u8 = 0x3a;

/// `$`, the first byte of a bulk string.
pub const TAG_BULK: u8 = 0x24;

/// `*`, the first byte of an array.
pub const TAG_ARRAY: u8 = 0x2a;

/// A half-open range `[start, end)` of offsets into a buffer.
pub struct Span {
    pub start: int,
    pub end: int,
}

/// One decoded frame whose payloads are still ranges of the buffer it was read from.
pub enum Tree {
    String(Span),
    BufString(Span),
    Error(Span),
    Array(Seq<Tree>),
    Int(i64),
    NullArray,
    NullBulkString,
}

/// One frame with its payloads as bytes of their own.
pub enum Value {
    String(Seq<u8>),
    BulkString(Seq<u8>),
    Error(Seq<u8>),
    Int(i64),
    Array(Seq<Value>),
    NullArray,
    NullBulkString,
}

/// What reading one unit at an offset comes to.
pub enum Decoded<T> {
    /// The unit is all there: the offset just past it, and what it holds.
    Complete(int, T),
    /// The buffer ends before the unit does; more bytes may complete it.
    Incomplete,
    /// No continuation of the buffer makes this a unit.
    Malformed(RESPError),
}

/// The two bytes of a terminator.
pub open spec fn crlf() -> Seq<u8> {
    seq![CR, LF]
}

/// Whether a terminator starts at offset `i` of `s`.
pub open spec fn crlf_at(s: Seq<u8>, i: int) -> bool {
    0 <= i && i + 1 < s.len() && s[i] == CR && s[i + 1] == LF
}

/// Whether `e` is where the first terminator at or after `pos` starts.
pub open spec fn first_crlf(s: Seq<u8>, pos: int, e: int) -> bool {
    &&& pos <= e
    &&& crlf_at(s, e)
    &&& forall|j: int| pos <= j < e ==> !crlf_at(s, j)
}

/// Where the first terminator at or after `pos` starts, if `s` holds one.
pub open spec fn line_end(s: Seq<u8>, pos: int) -> Option<int> {
    if exists|e: int| first_crlf(s, pos, e) {
        Some(choose|e: int| first_crlf(s, pos, e))
    } else {
        None
    }
}

/// The token that starts at `pos`: the offset just past its terminator, and
/// the range before the terminator.
pub open spec fn word_at(s: Seq<u8>, pos: int) -> Option<(int, Span)> {
    match line_end(s, pos) {
        Some(e) => Some((e + 2, Span { start: pos, end: e })),
        None => None,
    }
}

/// The line of signed decimal text that starts at `pos`.
pub open spec fn int_at(s: Seq<u8>, pos: int) -> Decoded<i64> {
    match line_end(s, pos) {
        Some(e) => match i64_value(s.subrange(pos, e)) {
            Some(v) => Decoded::Complete(e + 2, v),
            None => Decoded::Malformed(RESPError::IntParseFailure),
        },
        None => Decoded::Incomplete,
    }
}

/// What follows the tag of a simple string.
pub open spec fn simple_string_at(s: Seq<u8>, pos: int) -> Decoded<Tree> {
    match word_at(s, pos) {
        Some((next, span)) => Decoded::Complete(next, Tree::String(span)),
        None => Decoded::Incomplete,
    }
}

/// What follows the tag of an error.
pub open spec fn error_at(s: Seq<u8>, pos: int) -> Decoded<Tree> {
    match word_at(s, pos) {
        Some((next, span)) => Decoded::Complete(next, Tree::Error(span)),
        None => Decoded::Incomplete,
    }
}

/// What follows the tag of an integer.
pub open spec fn resp_int_at(s: Seq<u8>, pos: int) -> Decoded<Tree> {
    match int_at(s, pos) {
        Decoded::Complete(next, v) => Decoded::Complete(next, Tree::Int(v)),
        Decoded::Incomplete => Decoded::Incomplete,
        Decoded::Malformed(e) => Decoded::Malformed(e),
    }
}

/// What follows the tag of a bulk string: a length line, then that many bytes
/// and a terminator. A length of -1 is the null bulk string.
pub open spec fn bulk_string_at(s: Seq<u8>, pos: int) -> Decoded<Tree> {
    match int_at(s, pos) {
        Decoded::Complete(start, size) => if size == -1 {
            Decoded::Complete(start, Tree::NullBulkString)
        } else if size < -1 {
            Decoded::Malformed(RESPError::BadBulkStringSize(size))
        } else if crlf_at(s, start + size) {
            Decoded::Complete(start + size + 2, Tree::BufString(Span { start, end: start + size }))
        } else {
            Decoded::Incomplete
        },
        Decoded::Incomplete => Decoded::Incomplete,
        Decoded::Malformed(e) => Decoded::Malformed(e),
    }
}

/// The frame that starts at `pos`, told by its first byte.
pub open spec fn frame_at(s: Seq<u8>, pos: int) -> Decoded<Tree>
    decreases s.len() - pos, 0nat,
{
    if pos < 0 || pos >= s.len() {
        Decoded::Incomplete
    } else if s[pos] == TAG_SIMPLE {
        simple_string_at(s, pos + 1)
    } else if s[pos] == TAG_ERROR {
        error_at(s, pos + 1)
    } else if s[pos] == TAG_BULK {
        bulk_string_at(s, pos + 1)
    } else if s[pos] == TAG_INT {
        resp_int_at(s, pos + 1)
    } else if s[pos] == TAG_ARRAY {
        array_at(s, pos + 1)
    } else {
        Decoded::Malformed(RESPError::UnknownStartingByte)
    }
}

/// What follows the tag of an array: a count line, then that many frames.
/// A count of -1 is the null array.
pub open spec fn array_at(s: Seq<u8>, pos: int) -> Decoded<Tree>
    decreases s.len() - pos, 1nat,
{
    match int_at(s, pos) {
        Decoded::Complete(start, count) => if count == -1 {
            Decoded::Complete(start, Tree::NullArray)
        } else if count < -1 {
            Decoded::Malformed(RESPError::BadArraySize(count))
        } else {
            match items_at(s, start, count as nat) {
                Decoded::Complete(next, items) => Decoded::Complete(next, Tree::Array(items)),
                Decoded::Incomplete => Decoded::Incomplete,
                Decoded::Malformed(e) => Decoded::Malformed(e),
            }
        },
        Decoded::Incomplete => Decoded::Incomplete,
        Decoded::Malformed(e) => Decoded::Malformed(e),
    }
}

/// `n` frames one after another from `pos` on. The first one that is not
/// complete decides for all of them.
///
/// The test on `from` is there for termination only: a complete read never
/// ends before it starts nor past the end of the buffer (`lemma_items_advance`).
pub open spec fn items_at(s: Seq<u8>, pos: int, n: nat) -> Decoded<Seq<Tree>>
    decreases s.len() - pos, n + 2,
{
    if n == 0 {
        Decoded::Complete(pos, Seq::empty())
    } else {
        match items_at(s, pos, (n - 1) as nat) {
            Decoded::Complete(from, items) => if pos <= from <= s.len() {
                match frame_at(s, from) {
                    Decoded::Complete(next, item) => Decoded::Complete(next, items.push(item)),
                    Decoded::Incomplete => Decoded::Incomplete,
                    Decoded::Malformed(e) => Decoded::Malformed(e),
                }
            } else {
                Decoded::Incomplete
            },
            Decoded::Incomplete => Decoded::Incomplete,
            Decoded::Malformed(e) => Decoded::Malformed(e),
        }
    }
}

/// Whether every span of `t` lies inside a buffer of `len` bytes.
pub open spec fn within(t: Tree, len: int) -> bool
    decreases t,
{
    match t {
        Tree::String(span) | Tree::BufString(span) | Tree::Error(span) => 0 <= span.start
            <= span.end <= len,
        Tree::Array(items) => forall|i: int| 0 <= i < items.len() ==> within(#[trigger] items[i], len),
        _ => true,
    }
}

/// The value that `t` stands for once each span is replaced by the bytes of
/// `buf` it covers.
pub open spec fn materialize(t: Tree, buf: Seq<u8>) -> Value
    decreases t,
{
    match t {
        Tree::String(span) => Value::String(buf.subrange(span.start, span.end)),
        Tree::BufString(span) => Value::BulkString(buf.subrange(span.start, span.end)),
        Tree::Error(span) => Value::Error(buf.subrange(span.start, span.end)),
        Tree::Array(items) => Value::Array(
            Seq::new(
                items.len(),
                |i: int|
                    if 0 <= i < items.len() {
                        materialize(items[i], buf)
                    } else {
                        Value::NullArray
                    },
            ),
        ),
        Tree::Int(i) => Value::Int(i),
        Tree::NullArray => Value::NullArray,
        Tree::NullBulkString => Value::NullBulkString,
    }
}

/// The bytes that a value is written as.
pub open spec fn encoding(v: Value) -> Seq<u8>
    decreases v,
{
    match v {
        Value::String(bytes) => seq![TAG_SIMPLE] + bytes + crlf(),
        Value::Error(bytes) => seq![TAG_ERROR] + bytes + crlf(),
        Value::Int(i) => seq![TAG_INT] + decimal_text(i as int) + crlf(),
        Value::BulkString(bytes) => seq![TAG_BULK] + decimal_text(bytes.len() as int) + crlf()
            + bytes + crlf(),
        Value::Array(items) => seq![TAG_ARRAY] + decimal_text(items.len() as int) + crlf()
            + encoding_all(items),
        Value::NullArray => seq![TAG_ARRAY] + decimal_text(-1) + crlf(),
        Value::NullBulkString => seq![TAG_BULK] + decimal_text(-1) + crlf(),
    }
}

/// The encodings of `items`, one after another.
pub open spec fn encoding_all(items: Seq<Value>) -> Seq<u8>
    decreases items,
{
    if items.len() == 0 {
        Seq::empty()
    } else {
        encoding_all(items.drop_last()) + encoding(items.last())
    }
}

/// A tree that lies inside a buffer lies inside every longer one.
pub proof fn lemma_within_grows(t: Tree, len: int, longer: int)
    requires
        within(t, len),
        len <= longer,
    ensures
        within(t, longer),
    decreases t,
{
    match t {
        Tree::Array(items) => {
            assert forall|i: int| 0 <= i < items.len() implies within(#[trigger] items[i], longer) by {
                lemma_within_grows(items[i], len, longer);
            }
        },
        _ => {},
    }
}

/// A tree reads the same bytes from a buffer as from any prefix of the buffer
/// that it lies inside.
pub proof fn lemma_materialize_prefix(t: Tree, buf: Seq<u8>, n: int)
    requires
        within(t, n),
        n <= buf.len(),
    ensures
        materialize(t, buf.take(n)) == materialize(t, buf),
    decreases t,
{
    match t {
        Tree::String(span) | Tree::BufString(span) | Tree::Error(span) => {
            assert(buf.take(n).subrange(span.start, span.end) =~= buf.subrange(span.start, span.end));
        },
        Tree::Array(items) => {
            assert forall|i: int| 0 <= i < items.len() implies materialize(items[i], buf.take(n))
                == materialize(items[i], buf) by {
                lemma_materialize_prefix(items[i], buf, n);
            }
            assert(materialize(t, buf.take(n))->Array_0 =~= materialize(t, buf)->Array_0);
        },
        _ => {},
    }
}

/// A complete frame takes at least its tag and a terminator, ends inside the
/// buffer, and all its spans lie in the bytes it took.
pub proof fn lemma_frame_advances(s: Seq<u8>, pos: int)
    ensures
        frame_at(s, pos) matches Decoded::Complete(next, tree) ==> pos + 3 <= next <= s.len()
            && within(tree, next),
    decreases s.len() - pos, 0nat,
{
    if 0 <= pos < s.len() && s[pos] == TAG_ARRAY {
        lemma_array_advances(s, pos + 1);
    }
}

/// What `lemma_frame_advances` says, for what follows the tag of an array.
pub proof fn lemma_array_advances(s: Seq<u8>, pos: int)
    ensures
        array_at(s, pos) matches Decoded::Complete(next, tree) ==> pos + 2 <= next <= s.len()
            && (pos >= 0 ==> within(tree, next)),
    decreases s.len() - pos, 1nat,
{
    if let Decoded::Complete(start, count) = int_at(s, pos) {
        if count >= 0 {
            lemma_items_advance(s, start, count as nat);
        }
    }
}

/// Complete items end inside the buffer, not before they start; there are as
/// many as were asked for, and their spans lie in the bytes read so far.
pub proof fn lemma_items_advance(s: Seq<u8>, pos: int, n: nat)
    ensures
        items_at(s, pos, n) matches Decoded::Complete(next, items) ==> {
            &&& pos <= next
            &&& n > 0 ==> next <= s.len()
            &&& items.len() == n
            &&& pos >= 0 ==> forall|i: int| 0 <= i < n ==> within(#[trigger] items[i], next)
        },
    decreases s.len() - pos, n + 2,
{
    if n > 0 {
        lemma_items_advance(s, pos, (n - 1) as nat);
        if let Decoded::Complete(from, before) = items_at(s, pos, (n - 1) as nat) {
            if pos <= from <= s.len() {
                lemma_frame_advances(s, from);
                if let Decoded::Complete(next, item) = frame_at(s, from) {
                    let items = before.push(item);
                    if pos >= 0 {
                        assert forall|i: int| 0 <= i < n implies within(#[trigger] items[i], next) by {
                            if i < n - 1 {
                                lemma_within_grows(before[i], from, next);
                            }
                        }
                    }
                }
            }
        }
    }
}

/// Once an item is not complete, asking for more items changes nothing.
pub proof fn lemma_items_stuck(s: Seq<u8>, pos: int, k: nat, n: nat)
    requires
        k <= n,
        !(items_at(s, pos, k) is Complete),
    ensures
        items_at(s, pos, n) == items_at(s, pos, k),
    decreases n - k,
{
    if k < n {
        lemma_items_stuck(s, pos, k, (n - 1) as nat);
    }
}

} // verus!
