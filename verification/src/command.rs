//! The command model: what a decoded frame asks for.

use crate::buf::{bytes_as_slice, bytes_seq};
use crate::value::{Value, ValueView};
use bytes::Bytes;
use vstd::prelude::*;

verus! {

/// Why the argument cursor handed out no string.
#[derive(Clone, Copy, Debug, PartialEq, Eq, Structural)]
pub enum ParserError {
    /// No argument is left.
    EndOfMessage,
    /// The next argument is not a bulk string.
    UnexpectedValue,
}

/// Why a value is no command.
#[derive(Clone, Copy, Debug, PartialEq, Eq, Structural)]
pub enum CommandError {
    /// The value is not an array.
    ExpectedArray,
    /// The array is empty: it names no command.
    EndOfMessage,
    /// An element that has to be a bulk string is something else.
    InvalidArgumentType,
    /// The first element names no command that is known here.
    UnsupportedCommand,
    /// The command lacks an argument that it cannot do without.
    MissingArgument,
}

/// `PING`, with the message to answer with.
#[derive(Debug)]
pub struct Ping {
    pub msg: Bytes,
}

/// `ECHO`, with the message to send back.
#[derive(Debug)]
pub struct Echo {
    pub msg: Bytes,
}

/// A request that the server understands.
#[derive(Debug)]
pub enum Command {
    Ping(Ping),
    Echo(Echo),
}

/// A command as mathematics sees it.
pub enum CommandView {
    Ping(Seq<u8>),
    Echo(Seq<u8>),
}

impl View for Command {
    type V = CommandView;

    open spec fn view(&self) -> CommandView {
        match self {
            Command::Ping(p) => CommandView::Ping(bytes_seq(p.msg)),
            Command::Echo(e) => CommandView::Echo(bytes_seq(e.msg)),
        }
    }
}

/// The bytes `ping`.
pub open spec fn ping_name() -> Seq<u8> {
    seq![0x70u8, 0x69u8, 0x6eu8, 0x67u8]
}

/// The bytes `echo`.
pub open spec fn echo_name() -> Seq<u8> {
    seq![0x65u8, 0x63u8, 0x68u8, 0x6fu8]
}

/// The bytes `PONG`, the message of a `PING` that brings none.
pub open spec fn pong() -> Seq<u8> {
    seq![0x50u8, 0x4fu8, 0x4eu8, 0x47u8]
}

/// An ASCII capital turned into its small letter; any other byte as it is.
pub open spec fn lower(b: u8) -> u8 {
    if 0x41 <= b <= 0x5a {
        (b + 0x20) as u8
    } else {
        b
    }
}

/// `s` with every ASCII capital turned into its small letter.
pub open spec fn lowercase(s: Seq<u8>) -> Seq<u8> {
    Seq::new(s.len(), |i: int| lower(s[i]))
}

/// What the argument cursor hands out next from `args`.
pub open spec fn next_string_of(args: Seq<ValueView>) -> Result<Seq<u8>, ParserError> {
    if args.len() == 0 {
        Err(ParserError::EndOfMessage)
    } else {
        match args[0] {
            ValueView::BulkString(s) => Ok(s),
            ValueView::Array(_) => Err(ParserError::UnexpectedValue),
        }
    }
}

/// The message of a `PING` with the arguments `args`: the first argument, or
/// `PONG` where there is none. Arguments after the first are not looked at.
pub open spec fn ping_of(args: Seq<ValueView>) -> Result<Seq<u8>, CommandError> {
    match next_string_of(args) {
        Ok(s) => Ok(s),
        Err(ParserError::EndOfMessage) => Ok(pong()),
        Err(ParserError::UnexpectedValue) => Err(CommandError::InvalidArgumentType),
    }
}

/// The message of an `ECHO` with the arguments `args`: the first argument,
/// which must be there. Arguments after the first are not looked at.
pub open spec fn echo_of(args: Seq<ValueView>) -> Result<Seq<u8>, CommandError> {
    match next_string_of(args) {
        Ok(s) => Ok(s),
        Err(ParserError::EndOfMessage) => Err(CommandError::MissingArgument),
        Err(ParserError::UnexpectedValue) => Err(CommandError::InvalidArgumentType),
    }
}

/// The command that a value spells: an array of bulk strings whose first
/// element, read without regard to the case of ASCII letters, is the name.
pub open spec fn command_of(v: ValueView) -> Result<CommandView, CommandError> {
    match v {
        ValueView::BulkString(_) => Err(CommandError::ExpectedArray),
        ValueView::Array(items) => match next_string_of(items) {
            Err(ParserError::EndOfMessage) => Err(CommandError::EndOfMessage),
            Err(ParserError::UnexpectedValue) => Err(CommandError::InvalidArgumentType),
            Ok(name) => if lowercase(name) == ping_name() {
                match ping_of(items.skip(1)) {
                    Ok(msg) => Ok(CommandView::Ping(msg)),
                    Err(e) => Err(e),
                }
            } else if lowercase(name) == echo_name() {
                match echo_of(items.skip(1)) {
                    Ok(msg) => Ok(CommandView::Echo(msg)),
                    Err(e) => Err(e),
                }
            } else {
                Err(CommandError::UnsupportedCommand)
            },
        },
    }
}

/// Whether `name`, with its ASCII capitals made small, reads `expected`.
pub fn is_name(name: &[u8], expected: &[u8]) -> (r: bool)
    ensures
        r == (lowercase(name@) == expected@),
{
    if name.len() != expected.len() {
        return false;
    }
    let mut i: usize = 0;
    while i < name.len()
        invariant
            i <= name.len(),
            name.len() == expected.len(),
            forall|j: int| 0 <= j < i ==> lower(name@[j]) == expected@[j],
        decreases name.len() - i,
    {
        let b = name[i];
        let small = if 0x41 <= b && b <= 0x5a {
            b + 0x20
        } else {
            b
        };
        if small != expected[i] {
            assert(lowercase(name@)[i as int] != expected@[i as int]);
            return false;
        }
        i = i + 1;
    }
    assert(lowercase(name@) =~= expected@);
    true
}

/// A cursor over the elements of a request, handing them out left to right.
pub struct CommandParser {
    inner: Vec<Value>,
}

impl CommandParser {
    /// The elements not handed out yet, first first.
    pub closed spec fn remaining(&self) -> Seq<ValueView> {
        Seq::new(self.inner@.len(), |i: int| self.inner@[i]@)
    }

    /// A cursor over the elements of `v`, which must be an array.
    pub fn new(v: Value) -> (r: Result<Self, CommandError>)
        ensures
            match v@ {
                ValueView::Array(items) => r matches Ok(parser) && parser.remaining() == items,
                ValueView::BulkString(_) => r matches Err(e) && e == CommandError::ExpectedArray,
            },
    {
        match v {
            Value::Array(a) => {
                let parser = CommandParser { inner: a };
                assert(parser.remaining() =~= v@->Array_0);
                Ok(parser)
            },
            Value::BulkString(_) => Err(CommandError::ExpectedArray),
        }
    }

    /// Hands out the next element, which must be a bulk string, and steps
    /// past it. At the end of the elements nothing changes.
    pub fn next_string(&mut self) -> (r: Result<Bytes, ParserError>)
        ensures
            match next_string_of(old(self).remaining()) {
                Ok(s) => r matches Ok(b) && bytes_seq(b) == s,
                Err(e) => r matches Err(err) && err == e,
            },
            final(self).remaining() == if old(self).remaining().len() == 0 {
                old(self).remaining()
            } else {
                old(self).remaining().skip(1)
            },
    {
        if self.inner.len() == 0 {
            return Err(ParserError::EndOfMessage);
        }
        let first = self.inner.remove(0);
        assert(self.remaining() =~= old(self).remaining().skip(1));
        assert(first@ == old(self).remaining()[0]);
        match first {
            Value::BulkString(s) => Ok(s),
            Value::Array(_) => Err(ParserError::UnexpectedValue),
        }
    }
}

impl Ping {
    /// A `PING` from the arguments that follow its name.
    pub fn parse(parser: CommandParser) -> (r: Result<Self, CommandError>)
        ensures
            match ping_of(parser.remaining()) {
                Ok(msg) => r matches Ok(p) && bytes_seq(p.msg) == msg,
                Err(e) => r matches Err(err) && err == e,
            },
    {
        let mut parser = parser;
        match parser.next_string() {
            Ok(s) => Ok(Ping { msg: s }),
            Err(ParserError::EndOfMessage) => {
                let answer: [u8; 4] = [0x50, 0x4f, 0x4e, 0x47];
                assert(answer@ =~= pong());
                Ok(Ping { msg: Bytes::copy_from_slice(answer.as_slice()) })
            },
            Err(ParserError::UnexpectedValue) => Err(CommandError::InvalidArgumentType),
        }
    }
}

impl Echo {
    /// An `ECHO` from the arguments that follow its name.
    pub fn parse(parser: CommandParser) -> (r: Result<Self, CommandError>)
        ensures
            match echo_of(parser.remaining()) {
                Ok(msg) => r matches Ok(e) && bytes_seq(e.msg) == msg,
                Err(e) => r matches Err(err) && err == e,
            },
    {
        let mut parser = parser;
        match parser.next_string() {
            Ok(s) => Ok(Echo { msg: s }),
            Err(ParserError::EndOfMessage) => Err(CommandError::MissingArgument),
            Err(ParserError::UnexpectedValue) => Err(CommandError::InvalidArgumentType),
        }
    }
}

impl Command {
    /// The command that `v` spells.
    pub fn from_value(v: Value) -> (r: Result<Self, CommandError>)
        ensures
            match command_of(v@) {
                Ok(cmd) => r matches Ok(c) && c@ == cmd,
                Err(e) => r matches Err(err) && err == e,
            },
    {
        let mut parser = match CommandParser::new(v) {
            Ok(p) => p,
            Err(e) => {
                return Err(e);
            },
        };
        let name = match parser.next_string() {
            Ok(s) => s,
            Err(ParserError::EndOfMessage) => {
                return Err(CommandError::EndOfMessage);
            },
            Err(ParserError::UnexpectedValue) => {
                return Err(CommandError::InvalidArgumentType);
            },
        };
        let ping: [u8; 4] = [0x70, 0x69, 0x6e, 0x67];
        let echo: [u8; 4] = [0x65, 0x63, 0x68, 0x6f];
        assert(ping@ =~= ping_name());
        assert(echo@ =~= echo_name());
        if is_name(bytes_as_slice(&name), ping.as_slice()) {
            match Ping::parse(parser) {
                Ok(p) => Ok(Command::Ping(p)),
                Err(e) => Err(e),
            }
        } else if is_name(bytes_as_slice(&name), echo.as_slice()) {
            match Echo::parse(parser) {
                Ok(e) => Ok(Command::Echo(e)),
                Err(e) => Err(e),
            }
        } else {
            Err(CommandError::UnsupportedCommand)
        }
    }

    /// The value to answer the command with: its message, as a bulk string.
    pub fn reply(self) -> (v: Value)
        ensures
            v@ == ValueView::BulkString(message_of(self@)),
    {
        match self {
            Command::Ping(p) => Value::BulkString(p.msg),
            Command::Echo(e) => Value::BulkString(e.msg),
        }
    }
}

/// The message that a command carries, which is also what answers it.
pub open spec fn message_of(cmd: CommandView) -> Seq<u8> {
    match cmd {
        CommandView::Ping(msg) => msg,
        CommandView::Echo(msg) => msg,
    }
}

} // verus!
