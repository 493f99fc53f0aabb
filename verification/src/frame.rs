//! The frame decoder: one value out of a window of bytes.

use crate::cursor::Cursor;
use crate::number::{number_of, parse_decimal};
use crate::value::{Value, ValueView};
use bytes::Bytes;
use vstd::prelude::*;

verus! {

/// Carriage return, the first byte of a terminator.
pub const CR: u8 = 0x0d;

/// Line feed, the second byte of a terminator.
pub const LF: u8 = 0x0a;

/// `*`, the byte that opens an array.
pub const ARRAY: u8 = 0x2a;

/// `$`, the byte that opens a bulk string.
pub const BULK: u8 = 0x24;

/// Why no value came out of the bytes at hand.
#[derive(Clone, Copy, Debug, PartialEq, Eq, Structural)]
pub enum FrameError {
    /// The bytes so far are the beginning of a frame at best: more are needed.
    Incomplete,
    /// The bytes break the grammar, and no later byte can mend them.
    Malformed,
}

/// How many bytes of `data` stand at `pos` or after it.
pub open spec fn bytes_from(data: Seq<u8>, pos: int) -> nat {
    if pos < data.len() {
        (data.len() - pos) as nat
    } else {
        0
    }
}

/// How many bytes stand from `from` on before the first carriage return, or
/// before the end of `data` where there is none.
pub open spec fn line_len(data: Seq<u8>, from: int) -> nat
    decreases data.len() - from,
{
    if from < 0 || from >= data.len() || data[from] == CR {
        0
    } else {
        1 + line_len(data, from + 1)
    }
}

/// A length prefix at `pos`: the number that it spells, and how many bytes it
/// takes with its terminator. The line runs to the first carriage return.
/// The byte after the carriage return, the line feed of the pair, must be at
/// hand and is stepped over unread: whatever it is, the line ends after it.
pub open spec fn decode_number(data: Seq<u8>, pos: int) -> Result<(nat, nat), FrameError> {
    let len = line_len(data, pos);
    if pos < 0 || pos + len + 1 >= data.len() {
        Err(FrameError::Incomplete)
    } else {
        match number_of(data.subrange(pos, pos + len)) {
            Some(n) => Ok((n, len + 2)),
            None => Err(FrameError::Malformed),
        }
    }
}

/// The payload of a bulk string of `len` bytes at `pos`, and how many bytes
/// it takes with the two bytes of its terminator. After a payload of one byte
/// or more the two bytes must be a carriage return and a line feed. After an
/// empty payload they must be at hand and are stepped over unread.
pub open spec fn decode_bulk(data: Seq<u8>, pos: int, len: nat) -> Result<
    (Seq<u8>, nat),
    FrameError,
> {
    if pos < 0 || pos + len + 2 > data.len() {
        Err(FrameError::Incomplete)
    } else if len > 0 && (data[pos + len] != CR || data[pos + len + 1] != LF) {
        Err(FrameError::Malformed)
    } else {
        Ok((data.subrange(pos, pos + len), len + 2))
    }
}

/// The value that the bytes at `pos` spell, and how many bytes it takes: the
/// grammar of frames. An array is `*`, a count, and that many frames; a bulk
/// string is `$`, a length, that many bytes, and a terminator.
pub open spec fn decode(data: Seq<u8>, pos: int) -> Result<(ValueView, nat), FrameError>
    decreases bytes_from(data, pos), 0nat,
{
    if pos < 0 || pos >= data.len() {
        Err(FrameError::Incomplete)
    } else if data[pos] == ARRAY {
        match decode_number(data, pos + 1) {
            Ok((count, head)) => match decode_items(data, pos + 1 + head, count) {
                Ok((items, body)) => Ok((ValueView::Array(items), 1 + head + body)),
                Err(e) => Err(e),
            },
            Err(e) => Err(e),
        }
    } else if data[pos] == BULK {
        match decode_number(data, pos + 1) {
            Ok((len, head)) => match decode_bulk(data, pos + 1 + head, len) {
                Ok((payload, body)) => Ok((ValueView::BulkString(payload), 1 + head + body)),
                Err(e) => Err(e),
            },
            Err(e) => Err(e),
        }
    } else {
        Err(FrameError::Malformed)
    }
}

/// `count` frames in a row from `pos`: their values, and how many bytes they
/// take together.
pub open spec fn decode_items(data: Seq<u8>, pos: int, count: nat) -> Result<
    (Seq<ValueView>, nat),
    FrameError,
>
    decreases bytes_from(data, pos), count,
{
    if count == 0 {
        Ok((Seq::empty(), 0))
    } else {
        match decode_items(data, pos, (count - 1) as nat) {
            Ok((items, used)) => match decode(data, pos + used) {
                Ok((item, more)) => Ok((items.push(item), used + more)),
                Err(e) => Err(e),
            },
            Err(e) => Err(e),
        }
    }
}

/// A line ends within the data, at the first carriage return if there is
/// one.
pub proof fn lemma_line_len_bounds(data: Seq<u8>, from: int)
    requires
        0 <= from,
    ensures
        from <= data.len() ==> from + line_len(data, from) <= data.len(),
        from >= data.len() ==> line_len(data, from) == 0,
        from + line_len(data, from) < data.len() ==> data[from + line_len(data, from)] == CR,
        forall|j: int| from <= j < from + line_len(data, from) ==> data[j] != CR,
    decreases data.len() - from,
{
    if from < data.len() && data[from] != CR {
        lemma_line_len_bounds(data, from + 1);
    }
}

/// Where no carriage return stands from `from` up to `stop`, and one stands
/// at `stop` or the data end there, the line is `stop - from` bytes long.
pub proof fn lemma_line_len_is_first(data: Seq<u8>, from: int, stop: int)
    requires
        0 <= from <= stop <= data.len(),
        stop == data.len() || data[stop] == CR,
        forall|j: int| from <= j < stop ==> data[j] != CR,
    ensures
        line_len(data, from) == stop - from,
    decreases stop - from,
{
    if from < stop {
        lemma_line_len_is_first(data, from + 1, stop);
    }
}

/// A decoded frame takes at least one byte and ends within the data.
pub proof fn lemma_decode_bounds(data: Seq<u8>, pos: int)
    ensures
        decode(data, pos) matches Ok((_, used)) ==> 0 <= pos && 0 < used && pos + used
            <= data.len(),
    decreases bytes_from(data, pos), 0nat,
{
    if 0 <= pos < data.len() && data[pos] == ARRAY {
        if let Ok((count, head)) = decode_number(data, pos + 1) {
            lemma_decode_items_bounds(data, pos + 1 + head, count);
        }
    }
}

/// Decoded items are as many as were asked for, none of them empty, and end
/// within the data.
pub proof fn lemma_decode_items_bounds(data: Seq<u8>, pos: int, count: nat)
    requires
        0 <= pos <= data.len(),
    ensures
        decode_items(data, pos, count) matches Ok((items, used)) ==> items.len() == count && count
            <= used && pos + used <= data.len(),
    decreases bytes_from(data, pos), count,
{
    if count > 0 {
        lemma_decode_items_bounds(data, pos, (count - 1) as nat);
        if let Ok((_, used)) = decode_items(data, pos, (count - 1) as nat) {
            lemma_decode_bounds(data, pos + used);
        }
    }
}

/// Once an item fails to decode, so does every longer run of items, and for
/// the same reason.
pub proof fn lemma_decode_items_fail(data: Seq<u8>, pos: int, done: nat, count: nat)
    requires
        done < count,
        decode_items(data, pos, done) matches Ok((_, used)) && decode(data, pos + used) is Err,
    ensures
        decode_items(data, pos, count) is Err,
        decode_items(data, pos, count)->Err_0 == decode(
            data,
            pos + decode_items(data, pos, done)->Ok_0.1,
        )->Err_0,
    decreases count,
{
    if done + 1 < count {
        lemma_decode_items_fail(data, pos, done, (count - 1) as nat);
    }
}

/// Scans from the cursor for the first byte on which `p` answers `true`,
/// leaving the last byte of the window out, since a terminator has two. Where
/// one is found, the bytes before it are returned and the cursor moves two
/// bytes past it; otherwise more bytes are needed and the cursor stays.
pub fn chop_until<'a, F: Fn(char) -> bool>(cur: &mut Cursor<'a>, p: F) -> (r: Result<
    &'a [u8],
    FrameError,
>)
    requires
        forall|c: char| call_requires(p, (c,)),
    ensures
        final(cur).bytes() == old(cur).bytes(),
        match r {
            Ok(chunk) => {
                let stop = old(cur).offset() + chunk@.len();
                &&& stop + 1 < old(cur).bytes().len()
                &&& chunk@ == old(cur).bytes().subrange(old(cur).offset(), stop)
                &&& call_ensures(p, (old(cur).bytes()[stop] as char,), true)
                &&& forall|j: int|
                    old(cur).offset() <= j < stop ==> call_ensures(
                        p,
                        (#[trigger] old(cur).bytes()[j] as char,),
                        false,
                    )
                &&& final(cur).offset() == stop + 2
            },
            Err(e) => {
                &&& e == FrameError::Incomplete
                &&& final(cur).offset() == old(cur).offset()
                &&& forall|j: int|
                    old(cur).offset() <= j && j + 1 < old(cur).bytes().len() ==> call_ensures(
                        p,
                        (#[trigger] old(cur).bytes()[j] as char,),
                        false,
                    )
            },
        },
{
    let data = cur.get_ref();
    let start = cur.position();
    let mut i: usize = start;
    while i < data.len() && i + 1 < data.len()
        invariant
            start <= i,
            start == old(cur).offset(),
            data@ == old(cur).bytes(),
            *cur == *old(cur),
            forall|c: char| call_requires(p, (c,)),
            forall|j: int| start <= j < i ==> call_ensures(p, (#[trigger] data@[j] as char,), false),
        decreases data.len() - i,
    {
        if p(data[i] as char) {
            let chunk = &data[start..i];
            cur.set_position(i + 2);
            return Ok(chunk);
        }
        i = i + 1;
    }
    Err(FrameError::Incomplete)
}

/// Reads the length prefix at the cursor: the digits up to the first carriage
/// return. On success the cursor stands two bytes past the carriage return,
/// the byte after it stepped over unread; on failure it stays.
pub fn parse_number<'a>(cur: &mut Cursor<'a>) -> (r: Result<usize, FrameError>)
    ensures
        final(cur).bytes() == old(cur).bytes(),
        match decode_number(old(cur).bytes(), old(cur).offset()) {
            Ok((n, used)) => r == Ok::<usize, FrameError>(n as usize) && n <= usize::MAX
                && final(cur).offset() == old(cur).offset() + used,
            Err(e) => r == Err::<usize, FrameError>(e) && final(cur).offset() == old(
                cur,
            ).offset(),
        },
{
    let start = cur.position();
    let ghost data = cur.bytes();
    let is_cr = |c: char| -> (b: bool)
        ensures
            b == (c == '\r'),
        { c == '\r' };
    match chop_until(cur, is_cr) {
        Err(e) => {
            proof {
                assert forall|j: int| start <= j && j + 1 < data.len() implies data[j] != CR by {
                    assert(call_ensures(is_cr, (data[j] as char,), false));
                }
                lemma_line_len_bounds(data, start as int);
            }
            Err(e)
        },
        Ok(line) => {
            proof {
                let stop = start + line@.len();
                assert forall|j: int| start <= j < stop implies data[j] != CR by {
                    assert(call_ensures(is_cr, (data[j] as char,), false));
                }
                lemma_line_len_is_first(data, start as int, stop);
            }
            match parse_decimal(line) {
                Some(n) => Ok(n),
                None => {
                    cur.set_position(start);
                    Err(FrameError::Malformed)
                },
            }
        },
    }
}

/// Reads a bulk string's payload of `length` bytes at the cursor, and the two
/// bytes of the terminator after it, which must be a carriage return and a
/// line feed unless the payload is empty. On success the cursor stands after
/// those two bytes; on failure it stays.
pub fn parse_bulk_str<'a>(cur: &mut Cursor<'a>, length: usize) -> (r: Result<Value, FrameError>)
    ensures
        final(cur).bytes() == old(cur).bytes(),
        match decode_bulk(old(cur).bytes(), old(cur).offset(), length as nat) {
            Ok((payload, used)) => r matches Ok(v) && v@ == ValueView::BulkString(payload)
                && final(cur).offset() == old(cur).offset() + used,
            Err(e) => r matches Err(err) && err == e && final(cur).offset() == old(cur).offset(),
        },
{
    let data = cur.get_ref();
    let start = cur.position();
    if start > data.len() || data.len() - start < 2 || length > data.len() - start - 2 {
        return Err(FrameError::Incomplete);
    }
    let end = start + length;
    if length > 0 && (data[end] != CR || data[end + 1] != LF) {
        return Err(FrameError::Malformed);
    }
    let payload = Bytes::copy_from_slice(&data[start..end]);
    cur.set_position(end + 2);
    Ok(Value::BulkString(payload))
}

/// Decodes one frame at the cursor. On success the cursor stands at the first
/// byte after the frame; on failure it stays where it was.
pub fn parse_message<'a>(cur: &mut Cursor<'a>) -> (r: Result<Value, FrameError>)
    ensures
        final(cur).bytes() == old(cur).bytes(),
        match decode(old(cur).bytes(), old(cur).offset()) {
            Ok((value, used)) => r matches Ok(v) && v@ == value && final(cur).offset() == old(
                cur,
            ).offset() + used,
            Err(e) => r matches Err(err) && err == e && final(cur).offset() == old(cur).offset(),
        },
    decreases old(cur).left(),
{
    let start = cur.position();
    let ghost data = cur.bytes();
    if cur.remaining() == 0 {
        return Err(FrameError::Incomplete);
    }
    let kind = cur.get_u8();
    if kind == ARRAY {
        let count = match parse_number(cur) {
            Ok(n) => n,
            Err(e) => {
                cur.set_position(start);
                return Err(e);
            },
        };
        let ghost first = cur.offset();
        let mut msg = Value::array();
        let mut done: usize = 0;
        while done < count
            invariant
                done <= count,
                cur.bytes() == data,
                data == old(cur).bytes(),
                start == old(cur).offset(),
                0 <= start < first <= cur.offset() <= data.len(),
                data[start as int] == ARRAY,
                decode_number(data, start + 1) == Ok::<(nat, nat), FrameError>(
                    (count as nat, (first - start - 1) as nat),
                ),
                msg is Array,
                decode_items(data, first, done as nat) == Ok::<(Seq<ValueView>, nat), FrameError>(
                    (msg.items(), (cur.offset() - first) as nat),
                ),
            decreases count - done,
        {
            proof {
                lemma_decode_bounds(data, cur.offset());
            }
            match parse_message(cur) {
                Ok(item) => {
                    msg.push_bulk_str(item);
                },
                Err(e) => {
                    proof {
                        lemma_decode_items_fail(data, first, done as nat, count as nat);
                    }
                    cur.set_position(start);
                    return Err(e);
                },
            }
            done = done + 1;
        }
        Ok(msg)
    } else if kind == BULK {
        let length = match parse_number(cur) {
            Ok(n) => n,
            Err(e) => {
                cur.set_position(start);
                return Err(e);
            },
        };
        match parse_bulk_str(cur, length) {
            Ok(v) => Ok(v),
            Err(e) => {
                cur.set_position(start);
                Err(e)
            },
        }
    } else {
        cur.set_position(start);
        Err(FrameError::Malformed)
    }
}

} // verus!
