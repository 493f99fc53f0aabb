//! What holds of the grammar as a whole: decoding looks only at the bytes of
//! the frame itself, a frame cut short is incomplete, a broken frame stays
//! broken, frames in a row come out one by one, and an encoded bulk string
//! decodes to itself.

use crate::connection::{reply_to, rest_of, ConnectionError};
use crate::frame::{
    bytes_from, decode, decode_bulk, decode_items, decode_number, lemma_decode_bounds,
    lemma_decode_items_bounds, lemma_line_len_bounds, lemma_line_len_is_first, line_len,
    FrameError, ARRAY, BULK, CR, LF,
};
use crate::number::{decimal, is_digit, lemma_decimal_spells, lemma_number_of_decimal};
use crate::value::{encode_bulk, ValueView};
use vstd::prelude::*;

verus! {

/// Whether `other` holds at `off + j` what `data` holds at `j`, for every `j`
/// from `from` up to, not including, `to`.
pub open spec fn same_window(data: Seq<u8>, from: int, to: int, other: Seq<u8>, off: int) -> bool {
    &&& 0 <= from <= to <= data.len()
    &&& 0 <= off + from
    &&& off + to <= other.len()
    &&& forall|j: int| from <= j < to ==> other[off + j] == #[trigger] data[j]
}

/// A line is as long wherever its bytes stand.
proof fn lemma_line_len_moved(data: Seq<u8>, from: int, other: Seq<u8>, off: int)
    requires
        0 <= from,
        from + line_len(data, from) < data.len(),
        same_window(data, from, from + line_len(data, from) + 1, other, off),
    ensures
        line_len(other, off + from) == line_len(data, from),
{
    let end = from + line_len(data, from);
    lemma_line_len_bounds(data, from);
    assert(other[off + end] == data[end]);
    assert forall|j: int| off + from <= j < off + end implies other[j] != CR by {
        assert(other[off + (j - off)] == data[j - off]);
    }
    lemma_line_len_is_first(other, off + from, off + end);
}

/// A length prefix spells the same number wherever its bytes stand.
proof fn lemma_decode_number_moved(data: Seq<u8>, pos: int, other: Seq<u8>, off: int)
    requires
        decode_number(data, pos) matches Ok((_, used)) && same_window(
            data,
            pos,
            pos + used,
            other,
            off,
        ),
    ensures
        decode_number(other, off + pos) == decode_number(data, pos),
{
    let end = pos + line_len(data, pos);
    lemma_line_len_bounds(data, pos);
    lemma_line_len_moved(data, pos, other, off);
    assert(other.subrange(off + pos, off + end) =~= data.subrange(pos, end)) by {
        assert forall|i: int| 0 <= i < end - pos implies #[trigger] other.subrange(
            off + pos,
            off + end,
        )[i] == data.subrange(pos, end)[i] by {
            assert(other[off + (pos + i)] == data[pos + i]);
        }
    }
}

/// A payload and its terminator read the same wherever their bytes stand.
proof fn lemma_decode_bulk_moved(data: Seq<u8>, pos: int, len: nat, other: Seq<u8>, off: int)
    requires
        decode_bulk(data, pos, len) matches Ok((_, used)) && same_window(
            data,
            pos,
            pos + used,
            other,
            off,
        ),
    ensures
        decode_bulk(other, off + pos, len) == decode_bulk(data, pos, len),
{
    assert(other[off + (pos + len)] == data[pos + len]);
    assert(other[off + (pos + len + 1)] == data[pos + len + 1]);
    assert(other.subrange(off + pos, off + pos + len) =~= data.subrange(pos, pos + len)) by {
        assert forall|i: int| 0 <= i < len implies #[trigger] other.subrange(
            off + pos,
            off + pos + len,
        )[i] == data.subrange(pos, pos + len)[i] by {
            assert(other[off + (pos + i)] == data[pos + i]);
        }
    }
}

/// Decoding is local: a frame decodes to the same value, and takes as many
/// bytes, wherever its bytes stand and whatever stands before and after them.
pub proof fn lemma_decode_moved(data: Seq<u8>, pos: int, other: Seq<u8>, off: int)
    requires
        decode(data, pos) matches Ok((_, used)) && same_window(data, pos, pos + used, other, off),
    ensures
        decode(other, off + pos) == decode(data, pos),
    decreases bytes_from(data, pos), 0nat,
{
    lemma_decode_bounds(data, pos);
    assert(other[off + pos] == data[pos]);
    let (n, head) = decode_number(data, pos + 1)->Ok_0;
    if data[pos] == ARRAY {
        lemma_decode_items_bounds(data, pos + 1 + head, n);
        lemma_decode_number_moved(data, pos + 1, other, off);
        lemma_decode_items_moved(data, pos + 1 + head, n, other, off);
    } else {
        lemma_decode_number_moved(data, pos + 1, other, off);
        lemma_decode_bulk_moved(data, pos + 1 + head, n, other, off);
    }
}

/// Decoding a run of frames is local, as decoding one frame is.
pub proof fn lemma_decode_items_moved(
    data: Seq<u8>,
    pos: int,
    count: nat,
    other: Seq<u8>,
    off: int,
)
    requires
        decode_items(data, pos, count) matches Ok((_, used)) && same_window(
            data,
            pos,
            pos + used,
            other,
            off,
        ),
    ensures
        decode_items(other, off + pos, count) == decode_items(data, pos, count),
    decreases bytes_from(data, pos), count,
{
    if count > 0 {
        let before = (count - 1) as nat;
        let (_, used) = decode_items(data, pos, before)->Ok_0;
        lemma_decode_bounds(data, pos + used);
        lemma_decode_items_moved(data, pos, before, other, off);
        lemma_decode_moved(data, pos + used, other, off);
    }
}

/// A frame that is whole stays what it is when more bytes arrive after it.
pub proof fn lemma_decode_extended(data: Seq<u8>, more: Seq<u8>, pos: int)
    requires
        decode(data, pos) is Ok,
    ensures
        decode(data + more, pos) == decode(data, pos),
{
    lemma_decode_bounds(data, pos);
    lemma_decode_moved(data, pos, data + more, 0);
}

/// A frame cut short is incomplete: with fewer bytes than the frame has, the
/// decoder asks for more, and reports neither an error nor a value.
pub proof fn lemma_decode_cut(data: Seq<u8>, pos: int, cut: int)
    requires
        decode(data, pos) matches Ok((_, used)) && 0 <= cut < pos + used,
    ensures
        decode(data.take(cut), pos) == Err::<(ValueView, nat), FrameError>(FrameError::Incomplete),
    decreases bytes_from(data, pos), 0nat,
{
    lemma_decode_bounds(data, pos);
    let part = data.take(cut);
    if pos < cut {
        let (n, head) = decode_number(data, pos + 1)->Ok_0;
        lemma_line_len_bounds(data, pos + 1);
        lemma_line_len_bounds(part, pos + 1);
        if cut < pos + 1 + head {
            let part_end = pos + 1 + line_len(part, pos + 1);
            if part_end < cut {
                assert(part[part_end] == data[part_end]);
            }
        } else {
            lemma_decode_number_moved(data, pos + 1, part, 0);
            if data[pos] == ARRAY {
                lemma_decode_items_bounds(data, pos + 1 + head, n);
                lemma_decode_items_cut(data, pos + 1 + head, n, cut);
            }
        }
    }
}

/// A run of frames cut short is incomplete.
pub proof fn lemma_decode_items_cut(data: Seq<u8>, pos: int, count: nat, cut: int)
    requires
        0 <= pos <= data.len(),
        decode_items(data, pos, count) matches Ok((_, used)) && pos <= cut < pos + used,
    ensures
        decode_items(data.take(cut), pos, count) == Err::<(Seq<ValueView>, nat), FrameError>(
            FrameError::Incomplete,
        ),
    decreases bytes_from(data, pos), count,
{
    if count > 0 {
        let before = (count - 1) as nat;
        let (_, used) = decode_items(data, pos, before)->Ok_0;
        lemma_decode_items_bounds(data, pos, before);
        lemma_decode_bounds(data, pos + used);
        if cut < pos + used {
            lemma_decode_items_cut(data, pos, before, cut);
        } else {
            lemma_decode_items_moved(data, pos, before, data.take(cut), 0);
            lemma_decode_cut(data, pos + used, cut);
        }
    }
}

/// A broken frame stays broken: no bytes that arrive later mend it.
pub proof fn lemma_malformed_stays(data: Seq<u8>, more: Seq<u8>, pos: int)
    requires
        decode(data, pos) == Err::<(ValueView, nat), FrameError>(FrameError::Malformed),
    ensures
        decode(data + more, pos) == Err::<(ValueView, nat), FrameError>(FrameError::Malformed),
    decreases bytes_from(data, pos), 0nat,
{
    let longer = data + more;
    assert(longer[pos] == data[pos]);
    if data[pos] == ARRAY || data[pos] == BULK {
        let end = pos + 1 + line_len(data, pos + 1);
        lemma_line_len_bounds(data, pos + 1);
        match decode_number(data, pos + 1) {
            Ok((n, head)) => {
                lemma_decode_number_moved(data, pos + 1, longer, 0);
                let start = pos + 1 + head;
                if data[pos] == ARRAY {
                    lemma_items_malformed_stay(data, more, start, n);
                } else {
                    assert(longer[start + n] == data[start + n]);
                    assert(longer[start + n + 1] == data[start + n + 1]);
                }
            },
            Err(_) => {
                lemma_line_len_moved(data, pos + 1, longer, 0);
                assert(longer.subrange(pos + 1, end) =~= data.subrange(pos + 1, end));
            },
        }
    }
}

/// A run of frames with a broken one in it stays broken.
pub proof fn lemma_items_malformed_stay(data: Seq<u8>, more: Seq<u8>, pos: int, count: nat)
    requires
        0 <= pos <= data.len(),
        decode_items(data, pos, count) == Err::<(Seq<ValueView>, nat), FrameError>(
            FrameError::Malformed,
        ),
    ensures
        decode_items(data + more, pos, count) == Err::<(Seq<ValueView>, nat), FrameError>(
            FrameError::Malformed,
        ),
    decreases bytes_from(data, pos), count,
{
    let before = (count - 1) as nat;
    lemma_decode_items_bounds(data, pos, before);
    match decode_items(data, pos, before) {
        Ok((_, used)) => {
            lemma_decode_items_moved(data, pos, before, data + more, 0);
            lemma_malformed_stays(data, more, pos + used);
        },
        Err(_) => {
            lemma_items_malformed_stay(data, more, pos, before);
        },
    }
}

/// Whether `bytes` are one frame, whole and with nothing after it.
pub open spec fn is_frame(bytes: Seq<u8>) -> bool {
    decode(bytes, 0) matches Ok((_, used)) && used == bytes.len()
}

/// The value of the frame at the start of `bytes`.
pub open spec fn value_of(bytes: Seq<u8>) -> ValueView {
    decode(bytes, 0)->Ok_0.0
}

/// Where a frame arrives in two reads, the decoder reports the first part
/// alone as incomplete, so the connection asks for more and keeps what it
/// has; both parts together decode as the frame does in one read.
pub proof fn lemma_frame_in_two_reads(frame: Seq<u8>, cut: int)
    requires
        is_frame(frame),
        0 <= cut < frame.len(),
    ensures
        decode(frame.take(cut), 0) == Err::<(ValueView, nat), FrameError>(FrameError::Incomplete),
        reply_to(frame.take(cut)) == Ok::<Option<Seq<u8>>, ConnectionError>(None),
        rest_of(frame.take(cut)) == frame.take(cut),
        decode(frame.take(cut) + frame.skip(cut), 0) == decode(frame, 0),
{
    lemma_decode_cut(frame, 0, cut);
    assert(frame.take(cut) + frame.skip(cut) =~= frame);
}

/// The frames of `frames` one after the other.
pub open spec fn concat(frames: Seq<Seq<u8>>) -> Seq<u8>
    decreases frames.len(),
{
    if frames.len() == 0 {
        Seq::empty()
    } else {
        concat(frames.drop_last()) + frames.last()
    }
}

/// The first `count` frames in a row are how the whole row begins.
pub proof fn lemma_concat_begins(frames: Seq<Seq<u8>>, count: int)
    requires
        0 <= count <= frames.len(),
    ensures
        concat(frames.take(count)).len() <= concat(frames).len(),
        concat(frames).take(concat(frames.take(count)).len() as int) == concat(
            frames.take(count),
        ),
    decreases frames.len(),
{
    if count == frames.len() {
        assert(frames.take(count) == frames);
        assert(concat(frames).take(concat(frames).len() as int) == concat(frames));
    } else {
        let front = frames.drop_last();
        assert(front.take(count) == frames.take(count));
        lemma_concat_begins(front, count);
        let head = concat(frames.take(count));
        assert(concat(frames).take(head.len() as int) =~= concat(front).take(head.len() as int));
    }
}

/// A row of frames is its first frames followed by its other frames.
pub proof fn lemma_concat_splits(frames: Seq<Seq<u8>>, count: int)
    requires
        0 <= count <= frames.len(),
    ensures
        concat(frames) == concat(frames.take(count)) + concat(frames.skip(count)),
    decreases frames.len(),
{
    if count == frames.len() {
        assert(frames.take(count) == frames);
        assert(frames.skip(count).len() == 0);
        assert(concat(frames) + Seq::<u8>::empty() == concat(frames));
    } else {
        let front = frames.drop_last();
        lemma_concat_splits(front, count);
        assert(front.take(count) == frames.take(count));
        assert(frames.skip(count).drop_last() == front.skip(count));
        assert(frames.skip(count).last() == frames.last());
        assert((concat(frames.take(count)) + concat(front.skip(count))) + frames.last() =~= concat(
            frames.take(count),
        ) + (concat(front.skip(count)) + frames.last()));
    }
}

/// Frames in a row come out one by one. In a buffer that holds whole frames
/// one after the other, the frame with index `i` decodes at the position where
/// the frames before it end, to the value that it has alone, and takes the
/// bytes that it has alone: the next frame starts where it ends. The positions
/// grow with every frame, from 0 up to the length of the buffer.
pub proof fn lemma_frames_in_a_row(frames: Seq<Seq<u8>>, i: int)
    requires
        forall|k: int| 0 <= k < frames.len() ==> is_frame(#[trigger] frames[k]),
        0 <= i < frames.len(),
    ensures
        decode(concat(frames), concat(frames.take(i)).len() as int) == decode(frames[i], 0),
        concat(frames.take(i + 1)).len() == concat(frames.take(i)).len() + frames[i].len(),
        concat(frames.take(i)).len() < concat(frames.take(i + 1)).len() <= concat(frames).len(),
        concat(frames.take(0)).len() == 0,
        concat(frames.take(frames.len() as int)) == concat(frames),
{
    let buffer = concat(frames);
    let before = concat(frames.take(i));
    let through = concat(frames.take(i + 1));
    let frame = frames[i];
    assert(frames.take(i + 1).drop_last() == frames.take(i));
    assert(frames.take(i + 1).last() == frame);
    assert(through == before + frame);
    assert(frames.take(frames.len() as int) == frames);
    lemma_concat_begins(frames, i + 1);
    lemma_decode_bounds(frame, 0);
    assert(same_window(frame, 0, frame.len() as int, buffer, before.len() as int)) by {
        assert forall|j: int| 0 <= j < frame.len() implies buffer[before.len() + j]
            == #[trigger] frame[j] by {
            assert(buffer.take(through.len() as int)[before.len() + j] == through[before.len()
                + j]);
        }
    }
    lemma_decode_moved(frame, 0, buffer, before.len() as int);
}

/// Once the first of several frames is taken out of a buffer, what is left is
/// the frames after it, so no byte is reported twice.
pub proof fn lemma_first_frame_leaves_the_rest(frames: Seq<Seq<u8>>)
    requires
        forall|k: int| 0 <= k < frames.len() ==> is_frame(#[trigger] frames[k]),
        frames.len() > 0,
    ensures
        decode(concat(frames), 0) == decode(frames[0], 0),
        rest_of(concat(frames)) == concat(frames.skip(1)),
{
    lemma_frames_in_a_row(frames, 0);
    assert(concat(frames.take(1)) =~= frames[0]) by {
        reveal_with_fuel(concat, 2);
        assert(frames.take(1).last() == frames[0]);
    }
    lemma_concat_splits(frames, 1);
    assert(concat(frames).skip(frames[0].len() as int) =~= concat(frames.skip(1)));
}

/// The frame of a bulk string decodes to that bulk string and to nothing
/// else, whatever bytes the payload holds, carriage returns and line feeds
/// among them, and the decoder uses up the whole frame.
pub proof fn lemma_round_trip(payload: Seq<u8>)
    requires
        payload.len() <= usize::MAX,
    ensures
        decode(encode_bulk(payload), 0) == Ok::<(ValueView, nat), FrameError>(
            (ValueView::BulkString(payload), encode_bulk(payload).len()),
        ),
        is_frame(encode_bulk(payload)),
{
    let digits = decimal(payload.len());
    let frame = encode_bulk(payload);
    let end: int = 1 + digits.len() as int;
    let len: int = payload.len() as int;
    lemma_decimal_spells(payload.len());
    lemma_number_of_decimal(payload.len());
    assert(frame.len() == end + 2 + len + 2);
    assert(frame[0] == BULK);
    assert(frame[end] == CR);
    assert forall|j: int| 1 <= j < end implies frame[j] != CR by {
        assert(frame[j] == digits[j - 1]);
        assert(is_digit(digits[j - 1]));
    }
    lemma_line_len_is_first(frame, 1, end);
    assert(frame.subrange(1, end) =~= digits);
    assert(frame[end + 2 + len] == CR);
    assert(frame[end + 2 + len + 1] == LF);
    assert(frame.subrange(end + 2, end + 2 + len) =~= payload);
}

} // verus!
