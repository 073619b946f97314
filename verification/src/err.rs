//! The errors of the codec, of the command layer and of the keyspace.

use vstd::prelude::*;
use vstd::string::*;
use crate::text::{append_decimal, ascii_text, decimal_digits};

verus! {

/// What can go wrong while frames are read off the wire.
#[derive(Debug)]
pub enum RedisProtocolError {
    /// A line feed without a carriage return before it, or a carriage return
    /// without a line feed behind it.
    ExcessiveNewline,
    /// A length or an integer that cannot be read; holds the offending text.
    ConversionError(String),
    /// A frame that starts with a byte that introduces no kind of frame.
    UnsupportedFrame(u8),
    /// The bytes at hand end before the frame does.
    NotEnoughData,
    /// The peer closed the stream in the middle of a frame.
    ConnectionReset,
}

/// A protocol error as a mathematical value.
pub enum ProtocolErrorView {
    ExcessiveNewline,
    ConversionError(Seq<char>),
    UnsupportedFrame(u8),
    NotEnoughData,
    ConnectionReset,
}

impl View for RedisProtocolError {
    type V = ProtocolErrorView;

    open spec fn view(&self) -> ProtocolErrorView {
        match self {
            RedisProtocolError::ExcessiveNewline => ProtocolErrorView::ExcessiveNewline,
            RedisProtocolError::ConversionError(s) => ProtocolErrorView::ConversionError(s@),
            RedisProtocolError::UnsupportedFrame(b) => ProtocolErrorView::UnsupportedFrame(*b),
            RedisProtocolError::NotEnoughData => ProtocolErrorView::NotEnoughData,
            RedisProtocolError::ConnectionReset => ProtocolErrorView::ConnectionReset,
        }
    }
}

impl ProtocolErrorView {
    /// The text that describes the error.
    pub open spec fn message(self) -> Seq<char> {
        match self {
            ProtocolErrorView::ExcessiveNewline => "Found `\\n` before `\\r` OR `\\r` without `\\n`"@,
            ProtocolErrorView::ConversionError(s) => "Invalid frame format. Conversion of `"@ + s
                + "` failed."@,
            ProtocolErrorView::UnsupportedFrame(b) => "Unsupported frame type: `"@ + ascii_text(
                decimal_digits(b as nat),
            ) + "_u8`"@,
            ProtocolErrorView::NotEnoughData => "Not enough data has been buffered to parse the frame."@,
            ProtocolErrorView::ConnectionReset => "Connection reset by client."@,
        }
    }

    /// Whether the error ends the connection; only a shortage of data does
    /// not.
    pub open spec fn is_fatal(self) -> bool {
        !(self is NotEnoughData)
    }
}

impl RedisProtocolError {
    /// The text that describes the error.
    pub fn message(&self) -> (text: String)
        ensures
            text@ == self@.message(),
    {
        match self {
            RedisProtocolError::ExcessiveNewline => String::from_str(
                "Found `\\n` before `\\r` OR `\\r` without `\\n`",
            ),
            RedisProtocolError::ConversionError(s) => {
                let mut text = String::from_str("Invalid frame format. Conversion of `");
                text.append(s.as_str());
                text.append("` failed.");
                text
            },
            RedisProtocolError::UnsupportedFrame(b) => {
                let mut text = String::from_str("Unsupported frame type: `");
                append_decimal(*b as u128, &mut text);
                text.append("_u8`");
                text
            },
            RedisProtocolError::NotEnoughData => String::from_str(
                "Not enough data has been buffered to parse the frame.",
            ),
            RedisProtocolError::ConnectionReset => String::from_str("Connection reset by client."),
        }
    }

    /// Whether the error ends the connection; only a shortage of data does
    /// not.
    pub fn is_fatal(&self) -> (fatal: bool)
        ensures
            fatal == self@.is_fatal(),
    {
        match self {
            RedisProtocolError::NotEnoughData => false,
            _ => true,
        }
    }
}

/// What can go wrong while a frame is read as a command.
#[derive(Debug)]
pub enum RedisCommandError {
    /// No command was named, or none that is known.
    InvalidCommand(String),
    /// The frame does not have the shape of a command.
    InvalidFrame(String),
    /// A name, a key or an option is not valid UTF-8; holds the decoder's
    /// description of the fault.
    InvalidUtf8(String),
    /// An argument that has to be an integer is none.
    NotInteger(String),
    /// The command, the number of arguments it takes, and the number it got.
    WrongNumberOfArguments(String, String, usize),
    /// An option that is not supported.
    NotImplemented(String),
}

/// A command error as a mathematical value.
pub enum CommandErrorView {
    InvalidCommand(Seq<char>),
    InvalidFrame(Seq<char>),
    InvalidUtf8(Seq<char>),
    NotInteger(Seq<char>),
    WrongNumberOfArguments(Seq<char>, Seq<char>, nat),
    NotImplemented(Seq<char>),
}

impl View for RedisCommandError {
    type V = CommandErrorView;

    open spec fn view(&self) -> CommandErrorView {
        match self {
            RedisCommandError::InvalidCommand(s) => CommandErrorView::InvalidCommand(s@),
            RedisCommandError::InvalidFrame(s) => CommandErrorView::InvalidFrame(s@),
            RedisCommandError::InvalidUtf8(s) => CommandErrorView::InvalidUtf8(s@),
            RedisCommandError::NotInteger(s) => CommandErrorView::NotInteger(s@),
            RedisCommandError::WrongNumberOfArguments(c, e, n) => CommandErrorView::WrongNumberOfArguments(
                c@,
                e@,
                *n as nat,
            ),
            RedisCommandError::NotImplemented(s) => CommandErrorView::NotImplemented(s@),
        }
    }
}

impl CommandErrorView {
    /// The text that describes the error.
    pub open spec fn message(self) -> Seq<char> {
        match self {
            CommandErrorView::InvalidCommand(s) => "Invalid or unimplemented command: "@ + s,
            CommandErrorView::InvalidFrame(s) => "Invalid frame format: "@ + s,
            CommandErrorView::InvalidUtf8(s) => "Invalid UTF-8 in command: "@ + s,
            CommandErrorView::NotInteger(s) => "Failed to parse integer: "@ + s,
            CommandErrorView::WrongNumberOfArguments(c, e, n) => c + " expects "@ + e
                + " arguments, got "@ + ascii_text(decimal_digits(n)),
            CommandErrorView::NotImplemented(s) => "Not implemented error: "@ + s,
        }
    }
}

impl RedisCommandError {
    /// The text that describes the error.
    pub fn message(&self) -> (text: String)
        ensures
            text@ == self@.message(),
    {
        match self {
            RedisCommandError::InvalidCommand(s) => {
                let mut text = String::from_str("Invalid or unimplemented command: ");
                text.append(s.as_str());
                text
            },
            RedisCommandError::InvalidFrame(s) => {
                let mut text = String::from_str("Invalid frame format: ");
                text.append(s.as_str());
                text
            },
            RedisCommandError::InvalidUtf8(s) => {
                let mut text = String::from_str("Invalid UTF-8 in command: ");
                text.append(s.as_str());
                text
            },
            RedisCommandError::NotInteger(s) => {
                let mut text = String::from_str("Failed to parse integer: ");
                text.append(s.as_str());
                text
            },
            RedisCommandError::WrongNumberOfArguments(c, e, n) => {
                let mut text = String::from_str(c.as_str());
                text.append(" expects ");
                text.append(e.as_str());
                text.append(" arguments, got ");
                append_decimal(*n as u128, &mut text);
                text
            },
            RedisCommandError::NotImplemented(s) => {
                let mut text = String::from_str("Not implemented error: ");
                text.append(s.as_str());
                text
            },
        }
    }
}

/// What can go wrong inside the keyspace.
#[derive(Debug)]
pub enum RedisKeyspaceError {
    /// The value to increment is no decimal integer; holds the parser's
    /// description of the fault.
    NotInteger(String),
    /// The value to increment is the largest integer there is.
    Overflow,
    /// The key to increment had expired; it was removed.
    KeyExpired,
    /// The pattern is none; holds the matcher's description of the fault.
    BadPattern(String),
}

/// A keyspace error as a mathematical value.
pub enum KeyspaceErrorView {
    NotInteger(Seq<char>),
    Overflow,
    KeyExpired,
    BadPattern(Seq<char>),
}

impl View for RedisKeyspaceError {
    type V = KeyspaceErrorView;

    open spec fn view(&self) -> KeyspaceErrorView {
        match self {
            RedisKeyspaceError::NotInteger(s) => KeyspaceErrorView::NotInteger(s@),
            RedisKeyspaceError::Overflow => KeyspaceErrorView::Overflow,
            RedisKeyspaceError::KeyExpired => KeyspaceErrorView::KeyExpired,
            RedisKeyspaceError::BadPattern(s) => KeyspaceErrorView::BadPattern(s@),
        }
    }
}

impl KeyspaceErrorView {
    /// The text that describes the error.
    pub open spec fn message(self) -> Seq<char> {
        match self {
            KeyspaceErrorView::NotInteger(s) => s,
            KeyspaceErrorView::Overflow => "Integer overflow"@,
            KeyspaceErrorView::KeyExpired => "Key has expired"@,
            KeyspaceErrorView::BadPattern(s) => s,
        }
    }
}

impl RedisKeyspaceError {
    /// The text that describes the error.
    pub fn message(&self) -> (text: String)
        ensures
            text@ == self@.message(),
    {
        match self {
            RedisKeyspaceError::NotInteger(s) => String::from_str(s.as_str()),
            RedisKeyspaceError::Overflow => String::from_str("Integer overflow"),
            RedisKeyspaceError::KeyExpired => String::from_str("Key has expired"),
            RedisKeyspaceError::BadPattern(s) => String::from_str(s.as_str()),
        }
    }
}

} // verus!
