//! One connection's side of the protocol: the bytes received and not yet
//! used, and what to do next about them. Reading from and writing to the
//! transport is the caller's part.

use crate::buf::{bytes_mut_advance, bytes_mut_as_slice, bytes_mut_seq, bytes_seq};
use crate::command::{command_of, message_of, Command, CommandError};
use crate::cursor::Cursor;
use crate::frame::{decode, lemma_decode_bounds, parse_message, FrameError};
use crate::value::{encode_bulk, Value, ValueView};
use bytes::{Bytes, BytesMut};
use vstd::prelude::*;

verus! {

/// The room that a connection's buffer starts with: 512 KiB.
pub const BUFFER_CAPACITY: usize = 512 * 1024;

/// A value that has no encoding was handed over to be sent.
#[derive(Clone, Copy, Debug, PartialEq, Eq, Structural)]
pub struct UnsupportedEncoding;

/// Why a connection has to be closed. Every error closes it: the peer gets
/// no error reply, and nothing is tried again.
#[derive(Clone, Copy, Debug, PartialEq, Eq, Structural)]
pub enum ConnectionError {
    /// The peer sent bytes that break the grammar of frames.
    Malformed,
    /// The peer sent a frame that is no command.
    Command(CommandError),
}

/// What the owner of the transport has to do next.
#[derive(Debug)]
pub enum Action {
    /// No request is complete: read more bytes into the buffer, then call
    /// `received` with their number.
    Read,
    /// A request was taken out of the buffer and this is its reply: write
    /// the bytes, flush, then call `process` again.
    Write(Bytes),
    /// The peer has closed the transport: stop.
    Done,
    /// Close the connection and report the error.
    Fail(ConnectionError),
}

/// The protocol state of one connection.
pub struct Connection {
    /// Bytes received from the peer that no decoded frame has used up yet.
    pub buffer: BytesMut,
}

/// What `process` answers on a buffer that holds `buffered`, as mathematics
/// sees it: the bytes to write, or nothing to write.
pub open spec fn reply_to(buffered: Seq<u8>) -> Result<Option<Seq<u8>>, ConnectionError> {
    match decode(buffered, 0) {
        Err(FrameError::Incomplete) => Ok(None),
        Err(FrameError::Malformed) => Err(ConnectionError::Malformed),
        Ok((request, _)) => match command_of(request) {
            Ok(cmd) => Ok(Some(encode_bulk(message_of(cmd)))),
            Err(e) => Err(ConnectionError::Command(e)),
        },
    }
}

/// What is left in a buffer that held `buffered` once its first frame, if it
/// has one whole, is taken out.
pub open spec fn rest_of(buffered: Seq<u8>) -> Seq<u8> {
    match decode(buffered, 0) {
        Ok((_, used)) => buffered.skip(used as int),
        Err(_) => buffered,
    }
}

impl Connection {
    /// The bytes in the buffer, first received first.
    pub open spec fn buffered(&self) -> Seq<u8> {
        bytes_mut_seq(self.buffer)
    }

    /// A connection that has received nothing yet.
    pub fn new() -> (conn: Self)
        ensures
            conn.buffered() == Seq::<u8>::empty(),
    {
        Connection { buffer: BytesMut::with_capacity(BUFFER_CAPACITY) }
    }

    /// Takes the first frame out of the buffer. The bytes of the frame leave
    /// the buffer; where the buffer holds no whole frame, or a broken one, it
    /// stays as it is.
    pub fn read_message(&mut self) -> (r: Result<Value, FrameError>)
        ensures
            final(self).buffered() == rest_of(old(self).buffered()),
            match decode(old(self).buffered(), 0) {
                Ok((value, used)) => r matches Ok(v) && v@ == value && 0 < used <= old(
                    self,
                ).buffered().len(),
                Err(e) => r matches Err(err) && err == e,
            },
    {
        let data = bytes_mut_as_slice(&self.buffer);
        let mut cursor = Cursor::new(data);
        let message = parse_message(&mut cursor);
        let used = cursor.position();
        proof {
            lemma_decode_bounds(data@, 0);
            assert(data@.skip(0) == data@);
        }
        bytes_mut_advance(&mut self.buffer, used);
        message
    }

    /// The bytes to put on the wire for `msg`. Only a bulk string has an
    /// encoding.
    pub fn write_message(msg: Value) -> (r: Result<Bytes, UnsupportedEncoding>)
        ensures
            match msg@ {
                ValueView::BulkString(payload) => r matches Ok(out) && bytes_seq(out)
                    == encode_bulk(payload),
                ValueView::Array(_) => r is Err,
            },
    {
        match msg {
            Value::BulkString(_) => Ok(msg.as_bytes()),
            Value::Array(_) => Err(UnsupportedEncoding),
        }
    }

    /// One turn of the connection loop: takes the first request out of the
    /// buffer, if one is whole, and says what to do next.
    pub fn process(&mut self) -> (action: Action)
        ensures
            final(self).buffered() == rest_of(old(self).buffered()),
            match reply_to(old(self).buffered()) {
                Ok(Some(reply)) => action matches Action::Write(out) && bytes_seq(out) == reply,
                Ok(None) => action is Read,
                Err(e) => action matches Action::Fail(err) && err == e,
            },
    {
        let request = match self.read_message() {
            Ok(v) => v,
            Err(FrameError::Incomplete) => {
                return Action::Read;
            },
            Err(FrameError::Malformed) => {
                return Action::Fail(ConnectionError::Malformed);
            },
        };
        let command = match Command::from_value(request) {
            Ok(c) => c,
            Err(e) => {
                return Action::Fail(ConnectionError::Command(e));
            },
        };
        Action::Write(command.reply().as_bytes())
    }

    /// What to do once `count` bytes have been read into the buffer: none
    /// means that the peer is gone; otherwise the buffer is looked at again.
    pub fn received(&mut self, count: usize) -> (action: Action)
        ensures
            count == 0 ==> action is Done && final(self).buffered() == old(self).buffered(),
            count > 0 ==> final(self).buffered() == rest_of(old(self).buffered()) && match reply_to(
                old(self).buffered(),
            ) {
                Ok(Some(reply)) => action matches Action::Write(out) && bytes_seq(out) == reply,
                Ok(None) => action is Read,
                Err(e) => action matches Action::Fail(err) && err == e,
            },
    {
        if count == 0 {
            Action::Done
        } else {
            self.process()
        }
    }
}

} // verus!
