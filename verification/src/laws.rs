//! How decoding and encoding relate.
//!
//! The laws are stated over the model of `wire`, against which the decoder
//! and the encoder are specified:
//!
//! - `law_round_trip`: what was encoded is decoded as the same value, and all
//!   of its bytes are taken;
//! - `law_prefix_is_incomplete`, `law_incremental_feed`: a frame that arrives
//!   in two parts is incomplete after the first and complete after the second;
//! - `law_rest_stays`, `law_frame_is_local`: what stands behind a frame has no
//!   part in how it is read, and is what the buffer is left with;
//! - `law_malformed_stays`: no bytes added to a malformed frame mend it;
//! - `law_items_are_adjacent`: each item of an array starts where the one
//!   before it ended.

use vstd::prelude::*;

use crate::decimal::{
    decimal_text, is_digit, lemma_decimal_round_trip, lemma_digits_of,
};
use crate::scan::lemma_line_end_is;
use crate::wire::{
    array_at, crlf, crlf_at, encoding, encoding_all, first_crlf, frame_at, int_at, items_at,
    lemma_frame_advances, lemma_items_advance, line_end, materialize, Decoded, Tree, Value,
    TAG_ARRAY, TAG_BULK, TAG_ERROR, TAG_INT, TAG_SIMPLE,
};

verus! {

/// Whether `bytes` can be the payload of a line: no terminator starts inside it.
pub open spec fn line_safe(bytes: Seq<u8>) -> bool {
    forall|j: int| !crlf_at(bytes, j)
}

/// Whether the encoding of `v` says all of `v`.
///
/// A simple string or an error ends at the first terminator, so its payload
/// must hold none; a length or a count is read as an `i64`, so it must be
/// one. This is asked of `v` and of all that it is made of.
pub open spec fn plain(v: Value) -> bool
    decreases v,
{
    match v {
        Value::String(bytes) => line_safe(bytes),
        Value::Error(bytes) => line_safe(bytes),
        Value::BulkString(bytes) => bytes.len() <= i64::MAX,
        Value::Array(items) => items.len() <= i64::MAX && forall|i: int|
            0 <= i < items.len() ==> plain(#[trigger] items[i]),
        _ => true,
    }
}

/// Whether `part` stands in `s` from offset `pos` on.
pub open spec fn holds_at(s: Seq<u8>, pos: int, part: Seq<u8>) -> bool {
    0 <= pos && pos + part.len() <= s.len() && s.subrange(pos, pos + part.len()) == part
}

/// A part that stands in a buffer has each of its bytes there.
proof fn lemma_holds_at_index(s: Seq<u8>, pos: int, part: Seq<u8>, k: int)
    requires
        holds_at(s, pos, part),
        0 <= k < part.len(),
    ensures
        s[pos + k] == part[k],
{
}

/// Where two parts stand in a buffer as one, each stands there by itself.
proof fn lemma_holds_at_split(s: Seq<u8>, pos: int, a: Seq<u8>, b: Seq<u8>)
    requires
        holds_at(s, pos, a + b),
    ensures
        holds_at(s, pos, a),
        holds_at(s, pos + a.len(), b),
{
    let whole = s.subrange(pos, pos + (a + b).len());
    assert(s.subrange(pos, pos + a.len()) =~= whole.subrange(0, a.len() as int));
    assert(whole.subrange(0, a.len() as int) =~= a);
    assert(s.subrange(pos + a.len(), pos + a.len() + b.len()) =~= whole.subrange(
        a.len() as int,
        (a + b).len() as int,
    ));
    assert(whole.subrange(a.len() as int, (a + b).len() as int) =~= b);
}

/// A payload without a terminator, with one behind it, is a line that ends
/// where the payload does.
proof fn lemma_line_at(s: Seq<u8>, pos: int, text: Seq<u8>)
    requires
        holds_at(s, pos, text + crlf()),
        line_safe(text),
    ensures
        first_crlf(s, pos, pos + text.len()),
        line_end(s, pos) == Some(pos + text.len()),
        s.subrange(pos, pos + text.len()) == text,
{
    let line = text + crlf();
    let e = pos + text.len();
    lemma_holds_at_index(s, pos, line, text.len() as int);
    lemma_holds_at_index(s, pos, line, text.len() as int + 1);
    assert forall|j: int| pos <= j < e implies !crlf_at(s, j) by {
        lemma_holds_at_index(s, pos, line, j - pos);
        lemma_holds_at_index(s, pos, line, j - pos + 1);
        if j + 1 < e {
            assert(!crlf_at(text, j - pos));
        }
    }
    lemma_line_end_is(s, pos, e);
}

/// The text of a number holds digits and a sign only.
proof fn lemma_decimal_text_safe(v: int)
    ensures
        line_safe(decimal_text(v)),
        decimal_text(v).len() >= 1,
{
    let text = decimal_text(v);
    if v < 0 {
        lemma_digits_of((-v) as nat);
        assert forall|j: int| !crlf_at(text, j) by {
            if 1 <= j < text.len() {
                assert(is_digit(text[j]));
            }
        }
    } else {
        lemma_digits_of(v as nat);
        assert forall|j: int| !crlf_at(text, j) by {
            if 0 <= j < text.len() {
                assert(is_digit(text[j]));
            }
        }
    }
}

/// The line of a number is read as that number.
proof fn lemma_int_line_at(s: Seq<u8>, pos: int, v: i64)
    requires
        holds_at(s, pos, decimal_text(v as int) + crlf()),
    ensures
        first_crlf(s, pos, pos + decimal_text(v as int).len()),
        int_at(s, pos) == Decoded::Complete(pos + decimal_text(v as int).len() + 2, v),
{
    lemma_decimal_text_safe(v as int);
    lemma_line_at(s, pos, decimal_text(v as int));
    lemma_decimal_round_trip(v as int);
}

/// Where the encoding of a plain value stands in a buffer, the frame read
/// there is all of it and stands for the value.
pub proof fn lemma_reads_back(s: Seq<u8>, pos: int, v: Value)
    requires
        plain(v),
        holds_at(s, pos, encoding(v)),
    ensures
        frame_at(s, pos) matches Decoded::Complete(next, tree) && next == pos + encoding(v).len()
            && materialize(tree, s) == v,
    decreases v,
{
    let enc = encoding(v);
    lemma_holds_at_index(s, pos, enc, 0);
    match v {
        Value::String(bytes) => {
            assert(enc =~= seq![TAG_SIMPLE] + (bytes + crlf()));
            lemma_holds_at_split(s, pos, seq![TAG_SIMPLE], bytes + crlf());
            lemma_line_at(s, pos + 1, bytes);
        },
        Value::Error(bytes) => {
            assert(enc =~= seq![TAG_ERROR] + (bytes + crlf()));
            lemma_holds_at_split(s, pos, seq![TAG_ERROR], bytes + crlf());
            lemma_line_at(s, pos + 1, bytes);
        },
        Value::Int(i) => {
            assert(enc =~= seq![TAG_INT] + (decimal_text(i as int) + crlf()));
            lemma_holds_at_split(s, pos, seq![TAG_INT], decimal_text(i as int) + crlf());
            lemma_int_line_at(s, pos + 1, i);
        },
        Value::BulkString(bytes) => {
            let size = bytes.len() as i64;
            let header = decimal_text(size as int) + crlf();
            assert(enc =~= seq![TAG_BULK] + (header + (bytes + crlf())));
            lemma_holds_at_split(s, pos, seq![TAG_BULK], header + (bytes + crlf()));
            lemma_holds_at_split(s, pos + 1, header, bytes + crlf());
            lemma_int_line_at(s, pos + 1, size);
            let start = pos + 1 + header.len();
            lemma_holds_at_split(s, start, bytes, crlf());
        },
        Value::Array(items) => {
            let count = items.len() as i64;
            let header = decimal_text(count as int) + crlf();
            assert(enc =~= seq![TAG_ARRAY] + (header + encoding_all(items)));
            lemma_holds_at_split(s, pos, seq![TAG_ARRAY], header + encoding_all(items));
            lemma_holds_at_split(s, pos + 1, header, encoding_all(items));
            lemma_int_line_at(s, pos + 1, count);
            lemma_items_read_back(s, pos + 1 + header.len(), items);
            let read = items_at(s, pos + 1 + header.len(), items.len());
            assert(materialize(Tree::Array(read->Complete_1), s)->Array_0 =~= items);
        },
        Value::NullArray => {
            assert(enc =~= seq![TAG_ARRAY] + (decimal_text(-1) + crlf()));
            lemma_holds_at_split(s, pos, seq![TAG_ARRAY], decimal_text(-1) + crlf());
            lemma_int_line_at(s, pos + 1, -1i64);
        },
        Value::NullBulkString => {
            assert(enc =~= seq![TAG_BULK] + (decimal_text(-1) + crlf()));
            lemma_holds_at_split(s, pos, seq![TAG_BULK], decimal_text(-1) + crlf());
            lemma_int_line_at(s, pos + 1, -1i64);
        },
    }
}

/// What `lemma_reads_back` says, for the items of an array.
pub proof fn lemma_items_read_back(s: Seq<u8>, pos: int, items: Seq<Value>)
    requires
        forall|i: int| 0 <= i < items.len() ==> plain(#[trigger] items[i]),
        holds_at(s, pos, encoding_all(items)),
    ensures
        items_at(s, pos, items.len()) matches Decoded::Complete(next, trees) && next == pos
            + encoding_all(items).len() && trees.len() == items.len() && forall|i: int|
            0 <= i < items.len() ==> materialize(#[trigger] trees[i], s) == items[i],
    decreases items,
{
    if items.len() > 0 {
        let before = items.drop_last();
        let last = items.last();
        lemma_holds_at_split(s, pos, encoding_all(before), encoding(last));
        lemma_items_read_back(s, pos, before);
        lemma_reads_back(s, pos + encoding_all(before).len(), last);
    }
}

/// Decoding what was encoded gives the value back, and takes all the bytes.
///
/// This holds of every plain value. One whose simple string holds a
/// terminator is written as a frame that ends at that terminator.
pub proof fn law_round_trip(v: Value)
    requires
        plain(v),
    ensures
        frame_at(encoding(v), 0) matches Decoded::Complete(next, tree) && next == encoding(v).len()
            && materialize(tree, encoding(v)) == v,
{
    let enc = encoding(v);
    assert(enc.subrange(0, enc.len() as int) =~= enc);
    lemma_reads_back(enc, 0, v);
}

/// A line that is all there ends where it did, with the same text.
proof fn lemma_line_kept(full: Seq<u8>, pos: int, e: int, k: int)
    requires
        0 <= pos,
        first_crlf(full, pos, e),
        e + 2 <= k <= full.len(),
    ensures
        line_end(full.take(k), pos) == Some(e),
        full.take(k).subrange(pos, e) == full.subrange(pos, e),
{
    let s = full.take(k);
    assert forall|j: int| pos <= j < e implies !crlf_at(s, j) by {
        if crlf_at(s, j) {
            assert(crlf_at(full, j));
        }
    }
    lemma_line_end_is(s, pos, e);
}

/// A line that has its end keeps it, and its text, when bytes are added.
proof fn lemma_line_extends(s: Seq<u8>, more: Seq<u8>, pos: int)
    requires
        0 <= pos,
        line_end(s, pos) is Some,
    ensures
        line_end(s + more, pos) == line_end(s, pos),
        (s + more).subrange(pos, line_end(s, pos)->0) == s.subrange(pos, line_end(s, pos)->0),
{
    let e = line_end(s, pos)->0;
    let longer = s + more;
    assert forall|j: int| pos <= j < e implies !crlf_at(longer, j) by {
        assert(!crlf_at(s, j));
    }
    lemma_line_end_is(longer, pos, e);
}

/// A number that was read, or found to be none, stays so when bytes are added.
proof fn lemma_int_extends(s: Seq<u8>, more: Seq<u8>, pos: int)
    requires
        0 <= pos,
        !(int_at(s, pos) is Incomplete),
    ensures
        int_at(s + more, pos) == int_at(s, pos),
{
    lemma_line_extends(s, more, pos);
}

/// Once a buffer holds a complete frame at an offset, or one that is
/// malformed, bytes added behind the buffer change nothing of it.
pub proof fn lemma_frame_extends(s: Seq<u8>, more: Seq<u8>, pos: int)
    requires
        !(frame_at(s, pos) is Incomplete),
    ensures
        frame_at(s + more, pos) == frame_at(s, pos),
    decreases s.len() - pos, 0nat,
{
    if s[pos] == TAG_SIMPLE || s[pos] == TAG_ERROR {
        lemma_line_extends(s, more, pos + 1);
    } else if s[pos] == TAG_INT || s[pos] == TAG_BULK {
        lemma_int_extends(s, more, pos + 1);
    } else if s[pos] == TAG_ARRAY {
        lemma_array_extends(s, more, pos + 1);
    }
}

/// What `lemma_frame_extends` says, for what follows the tag of an array.
proof fn lemma_array_extends(s: Seq<u8>, more: Seq<u8>, pos: int)
    requires
        0 <= pos,
        !(array_at(s, pos) is Incomplete),
    ensures
        array_at(s + more, pos) == array_at(s, pos),
    decreases s.len() - pos, 1nat,
{
    lemma_int_extends(s, more, pos);
    if let Decoded::Complete(start, count) = int_at(s, pos) {
        if count >= 0 {
            lemma_items_extend(s, more, start, count as nat);
        }
    }
}

/// What `lemma_frame_extends` says, for the items of an array.
proof fn lemma_items_extend(s: Seq<u8>, more: Seq<u8>, pos: int, n: nat)
    requires
        0 <= pos,
        !(items_at(s, pos, n) is Incomplete),
    ensures
        items_at(s + more, pos, n) == items_at(s, pos, n),
    decreases s.len() - pos, n + 2,
{
    if n > 0 {
        lemma_items_extend(s, more, pos, (n - 1) as nat);
        if let Decoded::Complete(from, _) = items_at(s, pos, (n - 1) as nat) {
            if pos <= from <= s.len() {
                lemma_frame_extends(s, more, from);
            }
        }
    }
}

/// A complete frame is read the same from the bytes it took alone.
pub proof fn lemma_frame_alone(s: Seq<u8>, pos: int)
    requires
        frame_at(s, pos) is Complete,
    ensures
        frame_at(s.take(frame_at(s, pos)->Complete_0), pos) == frame_at(s, pos),
    decreases s.len() - pos, 0nat,
{
    let next = frame_at(s, pos)->Complete_0;
    lemma_frame_advances(s, pos);
    if s[pos] == TAG_ARRAY {
        lemma_array_alone(s, pos + 1);
    } else {
        lemma_line_kept(s, pos + 1, line_end(s, pos + 1)->0, next);
    }
}

/// What `lemma_frame_alone` says, for what follows the tag of an array.
proof fn lemma_array_alone(s: Seq<u8>, pos: int)
    requires
        0 <= pos,
        array_at(s, pos) is Complete,
    ensures
        array_at(s.take(array_at(s, pos)->Complete_0), pos) == array_at(s, pos),
    decreases s.len() - pos, 1nat,
{
    let next = array_at(s, pos)->Complete_0;
    if let Decoded::Complete(start, count) = int_at(s, pos) {
        if count >= 0 {
            lemma_items_advance(s, start, count as nat);
            lemma_line_kept(s, pos, start - 2, next);
            lemma_items_alone(s, start, count as nat);
        } else {
            lemma_line_kept(s, pos, start - 2, next);
        }
    }
}

/// What `lemma_frame_alone` says, for the items of an array.
proof fn lemma_items_alone(s: Seq<u8>, pos: int, n: nat)
    requires
        0 <= pos,
        items_at(s, pos, n) is Complete,
        n > 0 || pos <= s.len(),
    ensures
        items_at(s.take(items_at(s, pos, n)->Complete_0), pos, n) == items_at(s, pos, n),
    decreases s.len() - pos, n + 2,
{
    if n > 0 {
        let next = items_at(s, pos, n)->Complete_0;
        let before = items_at(s, pos, (n - 1) as nat);
        let from = before->Complete_0;
        lemma_frame_advances(s, from);
        // the items before the last are read the same from the bytes they took ...
        if n > 1 || pos <= s.len() {
            lemma_items_alone(s, pos, (n - 1) as nat);
        }
        // ... and so from the bytes all the items took
        assert(s.take(from) + s.subrange(from, next) =~= s.take(next));
        lemma_items_extend(s.take(from), s.subrange(from, next), pos, (n - 1) as nat);
        lemma_frame_alone(s, from);
    }
}

/// A buffer that ends inside a frame holds an incomplete frame: as long as
/// bytes of a frame are missing, the frame is neither read nor refused.
pub proof fn law_prefix_is_incomplete(first: Seq<u8>, second: Seq<u8>)
    requires
        second.len() > 0,
        frame_at(first + second, 0) matches Decoded::Complete(next, _) && next == (first
            + second).len(),
    ensures
        frame_at(first, 0) == Decoded::<Tree>::Incomplete,
{
    if !(frame_at(first, 0) is Incomplete) {
        lemma_frame_extends(first, second, 0);
        lemma_frame_advances(first, 0);
    }
}

/// The encoding of a value that arrives in two parts is incomplete after
/// the first and complete, with the value that was encoded, after the second.
pub proof fn law_incremental_feed(v: Value, first: Seq<u8>, second: Seq<u8>)
    requires
        plain(v),
        first.len() > 0,
        second.len() > 0,
        first + second == encoding(v),
    ensures
        frame_at(first, 0) == Decoded::<Tree>::Incomplete,
        frame_at(first + second, 0) matches Decoded::Complete(next, tree) && next == (first
            + second).len() && materialize(tree, first + second) == v,
{
    law_round_trip(v);
    law_prefix_is_incomplete(first, second);
}

/// Taking a complete frame off a buffer leaves what stood behind it, which
/// had no part in how the frame was read.
pub proof fn law_rest_stays(frame: Seq<u8>, rest: Seq<u8>)
    requires
        frame_at(frame, 0) matches Decoded::Complete(next, _) && next == frame.len(),
    ensures
        frame_at(frame + rest, 0) == frame_at(frame, 0),
        (frame + rest).skip(frame.len() as int) == rest,
{
    lemma_frame_extends(frame, rest, 0);
}

/// Two buffers that agree on the bytes a complete frame took hold the same
/// frame.
pub proof fn law_frame_is_local(a: Seq<u8>, b: Seq<u8>, pos: int)
    requires
        frame_at(a, pos) is Complete,
        frame_at(a, pos)->Complete_0 <= b.len(),
        b.take(frame_at(a, pos)->Complete_0) == a.take(frame_at(a, pos)->Complete_0),
    ensures
        frame_at(b, pos) == frame_at(a, pos),
{
    let next = frame_at(a, pos)->Complete_0;
    lemma_frame_advances(a, pos);
    lemma_frame_alone(a, pos);
    assert(b.take(next) + b.skip(next) =~= b);
    lemma_frame_extends(b.take(next), b.skip(next), pos);
}

/// The items of an array stand one behind the other: each is the frame that
/// starts where the items before it ended, and the array ends with the last.
pub proof fn law_items_are_adjacent(s: Seq<u8>, pos: int, n: nat, i: nat)
    requires
        items_at(s, pos, n) is Complete,
        i < n,
    ensures
        items_at(s, pos, i) matches Decoded::Complete(from, before) && frame_at(s, from)
            matches Decoded::Complete(next, item) && items_at(s, pos, (i + 1) as nat)
            == Decoded::Complete(next, before.push(item)) && item == items_at(
            s,
            pos,
            n,
        )->Complete_1[i as int],
    decreases n - i,
{
    lemma_items_advance(s, pos, (n - 1) as nat);
    if i + 1 < n {
        law_items_are_adjacent(s, pos, (n - 1) as nat, i);
    }
}

/// No bytes added behind a malformed frame make it well formed.
pub proof fn law_malformed_stays(s: Seq<u8>, more: Seq<u8>, pos: int)
    requires
        frame_at(s, pos) is Malformed,
    ensures
        frame_at(s + more, pos) == frame_at(s, pos),
{
    lemma_frame_extends(s, more, pos);
}

} // verus!
