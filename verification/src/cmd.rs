//! Commands: what a request frame asks for, and the frame that asks for it.

use vstd::prelude::*;
use vstd::string::*;
use vstd::utf8::{decode_utf8, encode_utf8, valid_utf8};
use crate::common::bytes_to_string;
use crate::err::{CommandErrorView, RedisCommandError};
use crate::frame::{frame_views, Frame, FrameView};
use crate::text::{decimal_digits, number_text, push_decimal_digits, str_eq, texts};
use crate::trusted::{parse_u64, uppercase, uppercase_of, utf8_fault};

verus! {

/// A request to the server.
#[derive(Debug)]
pub enum Command {
    Get { key: String },
    /// `SET`; `expiration` is a time to live in milliseconds.
    SetKey { key: String, val: Vec<u8>, expiration: Option<u128> },
    Ping { msg: Option<String> },
    Del { keys: Vec<String> },
    Exists { keys: Vec<String> },
    Increment { key: String },
    Keys { pattern: String },
    FlushDB,
    DBSize,
    /// A command that the server does not know, under the name it came by.
    Unknown(String),
    Lolwut(Vec<Frame>),
    Expire { key: String, seconds: u64 },
    TTL { key: String },
}

/// A command as a mathematical value.
pub enum CommandView {
    Get { key: Seq<char> },
    SetKey { key: Seq<char>, val: Seq<u8>, expiration: Option<u128> },
    Ping { msg: Option<Seq<char>> },
    Del { keys: Seq<Seq<char>> },
    Exists { keys: Seq<Seq<char>> },
    Increment { key: Seq<char> },
    Keys { pattern: Seq<char> },
    FlushDB,
    DBSize,
    Unknown(Seq<char>),
    Lolwut(Seq<FrameView>),
    Expire { key: Seq<char>, seconds: u64 },
    TTL { key: Seq<char> },
}

impl View for Command {
    type V = CommandView;

    open spec fn view(&self) -> CommandView {
        match self {
            Command::Get { key } => CommandView::Get { key: key@ },
            Command::SetKey { key, val, expiration } => CommandView::SetKey {
                key: key@,
                val: val@,
                expiration: *expiration,
            },
            Command::Ping { msg } => CommandView::Ping {
                msg: match msg {
                    Some(m) => Some(m@),
                    None => None,
                },
            },
            Command::Del { keys } => CommandView::Del { keys: texts(keys@) },
            Command::Exists { keys } => CommandView::Exists { keys: texts(keys@) },
            Command::Increment { key } => CommandView::Increment { key: key@ },
            Command::Keys { pattern } => CommandView::Keys { pattern: pattern@ },
            Command::FlushDB => CommandView::FlushDB,
            Command::DBSize => CommandView::DBSize,
            Command::Unknown(name) => CommandView::Unknown(name@),
            Command::Lolwut(frames) => CommandView::Lolwut(frame_views(frames@)),
            Command::Expire { key, seconds } => CommandView::Expire { key: key@, seconds: *seconds },
            Command::TTL { key } => CommandView::TTL { key: key@ },
        }
    }
}

/// The error for a command that got `actual` arguments where it takes
/// `expected`.
pub open spec fn wrong_arguments(command: Seq<char>, expected: Seq<char>, actual: nat) -> CommandErrorView {
    CommandErrorView::WrongNumberOfArguments(command, expected, actual)
}

/// The bytes of a bulk string; any other frame is an `InvalidFrame`.
pub open spec fn bulk_bytes(frame: FrameView) -> Result<Seq<u8>, CommandErrorView> {
    match frame {
        FrameView::Bulk(bytes) => Ok(bytes),
        _ => Err(CommandErrorView::InvalidFrame("Expected bulk string"@)),
    }
}

/// The text of a bulk string: `InvalidFrame` for any other frame,
/// `InvalidUtf8`, with the decoder's account of the fault, for bytes that are
/// no text.
pub open spec fn bulk_text(frame: FrameView) -> Result<Seq<char>, CommandErrorView> {
    match frame {
        FrameView::Bulk(bytes) => if valid_utf8(bytes) {
            Ok(decode_utf8(bytes))
        } else {
            Err(CommandErrorView::InvalidUtf8(utf8_fault(bytes)))
        },
        _ => Err(CommandErrorView::InvalidFrame("Expected bulk string"@)),
    }
}

/// The texts of a row of bulk strings, or the error of the first of them that
/// has none.
pub open spec fn bulk_texts(frames: Seq<FrameView>) -> Result<Seq<Seq<char>>, CommandErrorView>
    decreases frames.len(),
{
    if frames.len() == 0 {
        Ok(Seq::empty())
    } else {
        match bulk_texts(frames.drop_last()) {
            Err(e) => Err(e),
            Ok(head) => match bulk_text(frames.last()) {
                Err(e) => Err(e),
                Ok(text) => Ok(head.push(text)),
            },
        }
    }
}

/// The number that a text writes, as `str::parse::<u64>` takes it: an optional
/// `+`, then digits only, with a value that fits 64 bits.
pub open spec fn unsigned_text(text: Seq<char>) -> Option<u64> {
    let bytes = encode_utf8(text);
    match number_text(bytes) {
        Some(v) => if bytes[0] != 45 && v <= u64::MAX {
            Some(v as u64)
        } else {
            None
        },
        None => None,
    }
}

/// The unsigned number of a bulk string.
pub open spec fn bulk_number(frame: FrameView) -> Result<u64, CommandErrorView> {
    match bulk_text(frame) {
        Err(e) => Err(e),
        Ok(text) => match unsigned_text(text) {
            Some(n) => Ok(n),
            None => Err(CommandErrorView::NotInteger("Invalid u64"@)),
        },
    }
}

/// The time to live, in milliseconds, that an option of `SET` asks for. `option`
/// is the option's name in upper case, `amount` the frame that follows it.
pub open spec fn expiration_of(option: Seq<char>, amount: FrameView) -> Result<
    u128,
    CommandErrorView,
> {
    if option == "PX"@ {
        match bulk_number(amount) {
            Err(e) => Err(e),
            Ok(millis) => Ok(millis as u128),
        }
    } else if option == "EX"@ {
        match bulk_number(amount) {
            Err(e) => Err(e),
            Ok(seconds) => Ok((seconds * 1000) as u128),
        }
    } else {
        Err(CommandErrorView::NotImplemented("Expected EX <seconds> or PX <milliseconds>"@))
    }
}

/// `SET key value`, alone or followed by `EX seconds` or `PX milliseconds`.
pub open spec fn set_command(args: Seq<FrameView>) -> Result<CommandView, CommandErrorView> {
    if args.len() < 2 {
        Err(wrong_arguments("SET"@, "2 or 4"@, args.len()))
    } else {
        match bulk_text(args[0]) {
            Err(e) => Err(e),
            Ok(key) => match bulk_bytes(args[1]) {
                Err(e) => Err(e),
                Ok(val) => if args.len() == 2 {
                    Ok(CommandView::SetKey { key, val, expiration: None })
                } else if args.len() != 4 {
                    Err(wrong_arguments("SET"@, "2 or 4"@, (args.len() - 2) as nat))
                } else {
                    match bulk_text(args[2]) {
                        Err(e) => Err(e),
                        Ok(option) => match expiration_of(uppercase_of(option), args[3]) {
                            Err(e) => Err(e),
                            Ok(millis) => Ok(
                                CommandView::SetKey { key, val, expiration: Some(millis) },
                            ),
                        },
                    }
                },
            },
        }
    }
}

/// A command that takes one key and nothing else.
pub open spec fn key_argument(command: Seq<char>, args: Seq<FrameView>) -> Result<
    Seq<char>,
    CommandErrorView,
> {
    if args.len() != 1 {
        Err(wrong_arguments(command, "1"@, args.len()))
    } else {
        bulk_text(args[0])
    }
}

/// A command that takes one key or more.
pub open spec fn key_arguments(command: Seq<char>, args: Seq<FrameView>) -> Result<
    Seq<Seq<char>>,
    CommandErrorView,
> {
    if args.len() == 0 {
        Err(wrong_arguments(command, ">0"@, 0))
    } else {
        bulk_texts(args)
    }
}

/// `EXPIRE key seconds`.
pub open spec fn expire_command(args: Seq<FrameView>) -> Result<CommandView, CommandErrorView> {
    if args.len() != 2 {
        Err(wrong_arguments("EXPIRE"@, "2"@, args.len()))
    } else {
        match bulk_text(args[0]) {
            Err(e) => Err(e),
            Ok(key) => match bulk_text(args[1]) {
                Err(e) => Err(e),
                Ok(text) => match unsigned_text(text) {
                    Some(seconds) => Ok(CommandView::Expire { key, seconds }),
                    None => Err(CommandErrorView::NotInteger("Invalid seconds: "@ + text)),
                },
            },
        }
    }
}

/// The command that goes by `name`, whose upper-case form is `upper`, with the
/// arguments `args`.
pub open spec fn command_named(upper: Seq<char>, name: Seq<char>, args: Seq<FrameView>) -> Result<
    CommandView,
    CommandErrorView,
> {
    if upper == "GET"@ {
        match key_argument("GET"@, args) {
            Err(e) => Err(e),
            Ok(key) => Ok(CommandView::Get { key }),
        }
    } else if upper == "SET"@ {
        set_command(args)
    } else if upper == "PING"@ {
        if args.len() == 0 {
            Ok(CommandView::Ping { msg: None })
        } else if args.len() == 1 {
            match bulk_text(args[0]) {
                Err(e) => Err(e),
                Ok(msg) => Ok(CommandView::Ping { msg: Some(msg) }),
            }
        } else {
            Err(wrong_arguments("PING"@, "0 or 1"@, args.len()))
        }
    } else if upper == "INCR"@ {
        match key_argument("INCR"@, args) {
            Err(e) => Err(e),
            Ok(key) => Ok(CommandView::Increment { key }),
        }
    } else if upper == "FLUSHDB"@ {
        if args.len() == 0 {
            Ok(CommandView::FlushDB)
        } else {
            Err(wrong_arguments("FLUSHDB"@, "0"@, args.len()))
        }
    } else if upper == "DBSIZE"@ {
        if args.len() == 0 {
            Ok(CommandView::DBSize)
        } else {
            Err(wrong_arguments("DBSIZE"@, "0"@, args.len()))
        }
    } else if upper == "DEL"@ {
        match key_arguments("DEL"@, args) {
            Err(e) => Err(e),
            Ok(keys) => Ok(CommandView::Del { keys }),
        }
    } else if upper == "EXISTS"@ {
        match key_arguments("EXISTS"@, args) {
            Err(e) => Err(e),
            Ok(keys) => Ok(CommandView::Exists { keys }),
        }
    } else if upper == "KEYS"@ {
        match key_argument("KEYS"@, args) {
            Err(e) => Err(e),
            Ok(pattern) => Ok(CommandView::Keys { pattern }),
        }
    } else if upper == "LOLWUT"@ {
        if args.len() == 0 {
            Err(wrong_arguments("LOLWUT"@, "1"@, 0))
        } else {
            Ok(CommandView::Lolwut(args))
        }
    } else if upper == "EXPIRE"@ {
        expire_command(args)
    } else if upper == "TTL"@ {
        match key_argument("TTL"@, args) {
            Err(e) => Err(e),
            Ok(key) => Ok(CommandView::TTL { key }),
        }
    } else {
        Ok(CommandView::Unknown(name))
    }
}

/// The command that a frame asks for: an array whose first element, a bulk
/// string, names the command in either case, and whose other elements are its
/// arguments; or the bare simple string `PING`.
pub open spec fn command_of(frame: FrameView) -> Result<CommandView, CommandErrorView> {
    match frame {
        FrameView::Array(parts) => if parts.len() == 0 {
            Err(CommandErrorView::InvalidCommand("Empty command"@))
        } else {
            match bulk_text(parts[0]) {
                Err(e) => Err(e),
                Ok(name) => command_named(uppercase_of(name), name, parts.skip(1)),
            }
        },
        FrameView::Simple(s) => if uppercase_of(s) == "PING"@ {
            Ok(CommandView::Ping { msg: None })
        } else {
            Err(CommandErrorView::InvalidFrame("Expected array frame"@))
        },
        _ => Err(CommandErrorView::InvalidFrame("Expected array frame"@)),
    }
}

/// The bulk string of a text.
pub open spec fn bulk(text: Seq<char>) -> FrameView {
    FrameView::Bulk(encode_utf8(text))
}

/// The bulk strings of a row of texts.
pub open spec fn bulks(names: Seq<Seq<char>>) -> Seq<FrameView> {
    Seq::new(names.len(), |i: int| FrameView::Bulk(encode_utf8(names[i])))
}

/// The frame that asks for a command: an array that starts with the
/// command's name; every argument but those of `LOLWUT` is a bulk string. A
/// time to live is asked for in milliseconds, as `PX`.
pub open spec fn request_of(command: CommandView) -> FrameView {
    FrameView::Array(
        match command {
            CommandView::Get { key } => seq![bulk("GET"@), bulk(key)],
            CommandView::SetKey { key, val, expiration } => match expiration {
                Some(millis) => seq![
                    bulk("SET"@),
                    bulk(key),
                    FrameView::Bulk(val),
                    bulk("PX"@),
                    FrameView::Bulk(decimal_digits(millis as nat)),
                ],
                None => seq![bulk("SET"@), bulk(key), FrameView::Bulk(val)],
            },
            CommandView::Ping { msg } => match msg {
                Some(text) => seq![bulk("PING"@), bulk(text)],
                None => seq![bulk("PING"@)],
            },
            CommandView::Del { keys } => seq![bulk("DEL"@)] + bulks(keys),
            CommandView::Exists { keys } => seq![bulk("EXISTS"@)] + bulks(keys),
            CommandView::Increment { key } => seq![bulk("INCR"@), bulk(key)],
            CommandView::Keys { pattern } => seq![bulk("KEYS"@), bulk(pattern)],
            CommandView::FlushDB => seq![bulk("FLUSHDB"@)],
            CommandView::DBSize => seq![bulk("DBSIZE"@)],
            CommandView::Unknown(name) => seq![bulk(name)],
            CommandView::Lolwut(frames) => seq![bulk("LOLWUT"@)] + frames,
            CommandView::Expire { key, seconds } => seq![
                bulk("EXPIRE"@),
                bulk(key),
                FrameView::Bulk(decimal_digits(seconds as nat)),
            ],
            CommandView::TTL { key } => seq![bulk("TTL"@), bulk(key)],
        },
    )
}

/// Whether a result is the one called for: the same value, or the same
/// error.
pub open spec fn accords<T: View>(
    r: Result<T, RedisCommandError>,
    expected: Result<T::V, CommandErrorView>,
) -> bool {
    match (r, expected) {
        (Ok(value), Ok(model)) => value@ == model,
        (Err(e), Err(x)) => e@ == x,
        _ => false,
    }
}

/// The bulk string of a text.
fn bulk_frame(text: &str) -> (frame: Frame)
    ensures
        frame@ == bulk(text@),
{
    Frame::Bulk(text.as_bytes_vec())
}

/// The bulk string of a number in decimal.
fn number_frame(n: u128) -> (frame: Frame)
    ensures
        frame@ == FrameView::Bulk(decimal_digits(n as nat)),
{
    let mut digits: Vec<u8> = Vec::new();
    push_decimal_digits(n, &mut digits);
    assert(digits@ =~= decimal_digits(n as nat));
    Frame::Bulk(digits)
}

/// Puts the bulk strings of `keys` behind `parts`.
fn push_bulks(parts: &mut Vec<Frame>, keys: &Vec<String>)
    ensures
        frame_views(final(parts)@) == frame_views(old(parts)@) + bulks(texts(keys@)),
{
    let ghost before = frame_views(parts@);
    let mut i: usize = 0;
    assert(frame_views(parts@) =~= before + bulks(texts(keys@)).take(0));
    while i < keys.len()
        invariant
            i <= keys@.len(),
            frame_views(parts@) == before + bulks(texts(keys@)).take(i as int),
        decreases keys@.len() - i,
    {
        let ghost so_far = frame_views(parts@);
        parts.push(bulk_frame(keys[i].as_str()));
        assert(frame_views(parts@) =~= so_far.push(bulk(keys@[i as int]@)));
        assert(frame_views(parts@) =~= before + bulks(texts(keys@)).take(i + 1));
        i += 1;
    }
    assert(bulks(texts(keys@)).take(keys@.len() as int) =~= bulks(texts(keys@)));
}

/// The array of the frames of `parts`.
fn array_of(parts: Vec<Frame>) -> (frame: Frame)
    ensures
        frame@ == FrameView::Array(frame_views(parts@)),
{
    Frame::Array(parts)
}

/// A request of one frame.
fn request1(a: Frame) -> (frame: Frame)
    ensures
        frame@ == FrameView::Array(seq![a@]),
{
    let mut parts: Vec<Frame> = Vec::new();
    parts.push(a);
    assert(frame_views(parts@) =~= seq![a@]);
    array_of(parts)
}

/// A request of two frames.
fn request2(a: Frame, b: Frame) -> (frame: Frame)
    ensures
        frame@ == FrameView::Array(seq![a@, b@]),
{
    let mut parts: Vec<Frame> = Vec::new();
    parts.push(a);
    parts.push(b);
    assert(frame_views(parts@) =~= seq![a@, b@]);
    array_of(parts)
}

/// A request of three frames.
fn request3(a: Frame, b: Frame, c: Frame) -> (frame: Frame)
    ensures
        frame@ == FrameView::Array(seq![a@, b@, c@]),
{
    let mut parts: Vec<Frame> = Vec::new();
    parts.push(a);
    parts.push(b);
    parts.push(c);
    assert(frame_views(parts@) =~= seq![a@, b@, c@]);
    array_of(parts)
}

/// A request of five frames.
fn request5(a: Frame, b: Frame, c: Frame, d: Frame, e: Frame) -> (frame: Frame)
    ensures
        frame@ == FrameView::Array(seq![a@, b@, c@, d@, e@]),
{
    let mut parts: Vec<Frame> = Vec::new();
    parts.push(a);
    parts.push(b);
    parts.push(c);
    parts.push(d);
    parts.push(e);
    assert(frame_views(parts@) =~= seq![a@, b@, c@, d@, e@]);
    array_of(parts)
}

/// A request of a name and keys.
fn keys_request(name: &str, keys: &Vec<String>) -> (frame: Frame)
    ensures
        frame@ == FrameView::Array(seq![bulk(name@)] + bulks(texts(keys@))),
{
    let mut parts: Vec<Frame> = Vec::new();
    parts.push(bulk_frame(name));
    assert(frame_views(parts@) =~= seq![bulk(name@)]);
    push_bulks(&mut parts, keys);
    array_of(parts)
}

/// A request of a name and frames.
fn frames_request(name: &str, frames: Vec<Frame>) -> (frame: Frame)
    ensures
        frame@ == FrameView::Array(seq![bulk(name@)] + frame_views(frames@)),
{
    let mut frames = frames;
    let mut parts: Vec<Frame> = Vec::new();
    parts.push(bulk_frame(name));
    let ghost tail = frame_views(frames@);
    assert(frame_views(parts@) =~= seq![bulk(name@)]);
    parts.append(&mut frames);
    assert(frame_views(parts@) =~= seq![bulk(name@)] + tail);
    array_of(parts)
}

impl Command {
    /// The frame that asks for the command.
    pub fn into_frame(self) -> (frame: Frame)
        ensures
            frame@ == request_of(self@),
    {
        match self {
            Command::Get { key } => request2(bulk_frame("GET"), bulk_frame(key.as_str())),
            Command::SetKey { key, val, expiration } => match expiration {
                Some(millis) => request5(
                    bulk_frame("SET"),
                    bulk_frame(key.as_str()),
                    Frame::Bulk(val),
                    bulk_frame("PX"),
                    number_frame(millis),
                ),
                None => request3(bulk_frame("SET"), bulk_frame(key.as_str()), Frame::Bulk(val)),
            },
            Command::Ping { msg } => match msg {
                Some(text) => request2(bulk_frame("PING"), bulk_frame(text.as_str())),
                None => request1(bulk_frame("PING")),
            },
            Command::Del { keys } => keys_request("DEL", &keys),
            Command::Exists { keys } => keys_request("EXISTS", &keys),
            Command::Increment { key } => request2(bulk_frame("INCR"), bulk_frame(key.as_str())),
            Command::FlushDB => request1(bulk_frame("FLUSHDB")),
            Command::DBSize => request1(bulk_frame("DBSIZE")),
            Command::Keys { pattern } => request2(bulk_frame("KEYS"), bulk_frame(pattern.as_str())),
            Command::Unknown(name) => request1(bulk_frame(name.as_str())),
            Command::Lolwut(frames) => frames_request("LOLWUT", frames),
            Command::Expire { key, seconds } => request3(
                bulk_frame("EXPIRE"),
                bulk_frame(key.as_str()),
                number_frame(seconds as u128),
            ),
            Command::TTL { key } => request2(bulk_frame("TTL"), bulk_frame(key.as_str())),
        }
    }

    /// Reads a frame as a command.
    pub fn from_frame(frame: Frame) -> (r: Result<Command, RedisCommandError>)
        ensures
            accords(r, command_of(frame@)),
    {
        match frame {
            Frame::Array(mut parts) => {
                if parts.len() == 0 {
                    return Err(RedisCommandError::InvalidCommand(String::from_str("Empty command")));
                }
                let ghost all = frame_views(parts@);
                let first = parts.remove(0);
                assert(frame_views(parts@) =~= all.skip(1));
                let name = Self::bulk_to_string(first)?;
                let upper = uppercase(name.as_str());
                Self::from_parts(upper.as_str(), name, parts)
            },
            Frame::Simple(s) => {
                let upper = uppercase(s.as_str());
                if str_eq(upper.as_str(), "PING") {
                    Ok(Command::Ping { msg: None })
                } else {
                    Err(RedisCommandError::InvalidFrame(String::from_str("Expected array frame")))
                }
            },
            _ => Err(RedisCommandError::InvalidFrame(String::from_str("Expected array frame"))),
        }
    }

    /// The command that goes by `name`, whose upper-case form is `upper`, with
    /// the arguments `args`.
    pub fn from_parts(upper: &str, name: String, args: Vec<Frame>) -> (r: Result<
        Command,
        RedisCommandError,
    >)
        ensures
            accords(r, command_named(upper@, name@, frame_views(args@))),
    {
        let mut args = args;
        let ghost all = frame_views(args@);
        let count = args.len();
        if str_eq(upper, "GET") {
            let key = Self::one_key("GET", args)?;
            Ok(Command::Get { key })
        } else if str_eq(upper, "SET") {
            Self::set_from(args)
        } else if str_eq(upper, "PING") {
            if count == 0 {
                Ok(Command::Ping { msg: None })
            } else if count == 1 {
                let msg = Self::bulk_to_string(args.remove(0))?;
                Ok(Command::Ping { msg: Some(msg) })
            } else {
                Err(Self::wrong_number_of_arguments("PING", "0 or 1", count))
            }
        } else if str_eq(upper, "INCR") {
            let key = Self::one_key("INCR", args)?;
            Ok(Command::Increment { key })
        } else if str_eq(upper, "FLUSHDB") {
            if count == 0 {
                Ok(Command::FlushDB)
            } else {
                Err(Self::wrong_number_of_arguments("FLUSHDB", "0", count))
            }
        } else if str_eq(upper, "DBSIZE") {
            if count == 0 {
                Ok(Command::DBSize)
            } else {
                Err(Self::wrong_number_of_arguments("DBSIZE", "0", count))
            }
        } else if str_eq(upper, "DEL") {
            let keys = Self::some_keys("DEL", args)?;
            Ok(Command::Del { keys })
        } else if str_eq(upper, "EXISTS") {
            let keys = Self::some_keys("EXISTS", args)?;
            Ok(Command::Exists { keys })
        } else if str_eq(upper, "KEYS") {
            let pattern = Self::one_key("KEYS", args)?;
            Ok(Command::Keys { pattern })
        } else if str_eq(upper, "LOLWUT") {
            if count == 0 {
                Err(Self::wrong_number_of_arguments("LOLWUT", "1", count))
            } else {
                Ok(Command::Lolwut(args))
            }
        } else if str_eq(upper, "EXPIRE") {
            Self::expire_from(args)
        } else if str_eq(upper, "TTL") {
            let key = Self::one_key("TTL", args)?;
            Ok(Command::TTL { key })
        } else {
            Ok(Command::Unknown(name))
        }
    }

    /// The key of a command that takes one key and nothing else.
    fn one_key(command: &str, args: Vec<Frame>) -> (r: Result<String, RedisCommandError>)
        ensures
            accords(r, key_argument(command@, frame_views(args@))),
    {
        let mut args = args;
        if args.len() != 1 {
            return Err(Self::wrong_number_of_arguments(command, "1", args.len()));
        }
        Self::bulk_to_string(args.remove(0))
    }

    /// The keys of a command that takes one key or more.
    fn some_keys(command: &str, args: Vec<Frame>) -> (r: Result<Vec<String>, RedisCommandError>)
        ensures
            match (r, key_arguments(command@, frame_views(args@))) {
                (Ok(keys), Ok(model)) => texts(keys@) == model,
                (Err(e), Err(x)) => e@ == x,
                _ => false,
            },
    {
        if args.len() == 0 {
            return Err(Self::wrong_number_of_arguments(command, ">0", 0));
        }
        Self::bulks_to_strings(args)
    }

    /// The texts of a row of bulk strings.
    fn bulks_to_strings(frames: Vec<Frame>) -> (r: Result<Vec<String>, RedisCommandError>)
        ensures
            match (r, bulk_texts(frame_views(frames@))) {
                (Ok(keys), Ok(model)) => texts(keys@) == model,
                (Err(e), Err(x)) => e@ == x,
                _ => false,
            },
    {
        let mut rest = frames;
        let ghost all = frame_views(rest@);
        let total = rest.len();
        let mut keys: Vec<String> = Vec::new();
        assert(all.take(0) =~= Seq::<FrameView>::empty());
        assert(texts(keys@) =~= Seq::<Seq<char>>::empty());
        while rest.len() > 0
            invariant
                keys.len() + rest.len() == total,
                total == all.len(),
                all == frame_views(frames@),
                frame_views(rest@) == all.skip(keys.len() as int),
                bulk_texts(all.take(keys.len() as int)) == Ok::<Seq<Seq<char>>, CommandErrorView>(
                    texts(keys@),
                ),
            decreases rest.len(),
        {
            let ghost done = keys.len() as int;
            let ghost before = rest@;
            let frame = rest.remove(0);
            assert(frame@ == frame_views(before)[0]);
            assert(frame@ == all[done]);
            assert(frame_views(rest@) =~= all.skip(done + 1)) by {
                assert forall|i: int| 0 <= i < rest@.len() implies frame_views(rest@)[i]
                    == all.skip(done + 1)[i] by {
                    assert(rest@[i] == before[i + 1]);
                    assert(frame_views(before)[i + 1] == before[i + 1]@);
                    assert(all.skip(done)[i + 1] == all[done + 1 + i]);
                }
            }
            assert(all.take(done + 1).drop_last() =~= all.take(done));
            assert(all.take(done + 1).last() == all[done]);
            match Self::bulk_to_string(frame) {
                Ok(key) => {
                    let ghost old_keys = texts(keys@);
                    keys.push(key);
                    assert(texts(keys@) =~= old_keys.push(key@));
                },
                Err(e) => {
                    proof {
                        lemma_bulk_texts_fails(all, done + 1);
                    }
                    return Err(e);
                },
            }
        }
        assert(all.take(total as int) =~= all);
        Ok(keys)
    }

    /// `SET key value`, alone or followed by `EX seconds` or `PX milliseconds`.
    fn set_from(args: Vec<Frame>) -> (r: Result<Command, RedisCommandError>)
        ensures
            accords(r, set_command(frame_views(args@))),
    {
        let mut args = args;
        let ghost all = frame_views(args@);
        let count = args.len();
        if count < 2 {
            return Err(Self::wrong_number_of_arguments("SET", "2 or 4", count));
        }
        let key = Self::bulk_to_string(args.remove(0))?;
        let val = Self::bulk_to_bytes(args.remove(0))?;
        if args.len() == 0 {
            return Ok(Command::SetKey { key, val, expiration: None });
        }
        if args.len() != 2 {
            return Err(Self::wrong_number_of_arguments("SET", "2 or 4", args.len()));
        }
        let option = Self::bulk_to_string(args.remove(0))?;
        let upper = uppercase(option.as_str());
        let millis = Self::expiration_from(upper.as_str(), args.remove(0))?;
        Ok(Command::SetKey { key, val, expiration: Some(millis) })
    }

    /// The time to live, in milliseconds, that an option of `SET` asks for.
    /// `option` is the option's name in upper case, `amount` the frame that
    /// follows it.
    pub fn expiration_from(option: &str, amount: Frame) -> (r: Result<u128, RedisCommandError>)
        ensures
            match (r, expiration_of(option@, amount@)) {
                (Ok(millis), Ok(model)) => millis == model,
                (Err(e), Err(x)) => e@ == x,
                _ => false,
            },
    {
        if str_eq(option, "PX") {
            let millis = Self::bulk_to_u64(amount)?;
            Ok(millis as u128)
        } else if str_eq(option, "EX") {
            let seconds = Self::bulk_to_u64(amount)?;
            Ok(seconds as u128 * 1000)
        } else {
            Err(
                RedisCommandError::NotImplemented(
                    String::from_str("Expected EX <seconds> or PX <milliseconds>"),
                ),
            )
        }
    }

    /// `EXPIRE key seconds`.
    fn expire_from(args: Vec<Frame>) -> (r: Result<Command, RedisCommandError>)
        ensures
            accords(r, expire_command(frame_views(args@))),
    {
        let mut args = args;
        if args.len() != 2 {
            return Err(Self::wrong_number_of_arguments("EXPIRE", "2", args.len()));
        }
        let key = Self::bulk_to_string(args.remove(0))?;
        let text = Self::bulk_to_string(args.remove(0))?;
        proof {
            vstd::utf8::encode_utf8_decode_utf8(text@);
        }
        match parse_u64(text.as_str()) {
            Some(seconds) => Ok(Command::Expire { key, seconds }),
            None => {
                let mut message = String::from_str("Invalid seconds: ");
                message.append(text.as_str());
                Err(RedisCommandError::NotInteger(message))
            },
        }
    }

    /// The unsigned number of a bulk string.
    fn bulk_to_u64(frame: Frame) -> (r: Result<u64, RedisCommandError>)
        ensures
            match (r, bulk_number(frame@)) {
                (Ok(n), Ok(model)) => n == model,
                (Err(e), Err(x)) => e@ == x,
                _ => false,
            },
    {
        let text = Self::bulk_to_string(frame)?;
        match parse_u64(text.as_str()) {
            Some(n) => Ok(n),
            None => Err(RedisCommandError::NotInteger(String::from_str("Invalid u64"))),
        }
    }

    /// The error for a command that got `actual` arguments where it takes
    /// `expected`.
    fn wrong_number_of_arguments(command: &str, expected: &str, actual: usize) -> (e:
        RedisCommandError)
        ensures
            e@ == wrong_arguments(command@, expected@, actual as nat),
    {
        RedisCommandError::WrongNumberOfArguments(
            String::from_str(command),
            String::from_str(expected),
            actual,
        )
    }

    /// The text of a bulk string.
    fn bulk_to_string(frame: Frame) -> (r: Result<String, RedisCommandError>)
        ensures
            accords(r, bulk_text(frame@)),
    {
        match frame {
            Frame::Bulk(bytes) => bytes_to_string(bytes.as_slice()),
            _ => Err(RedisCommandError::InvalidFrame(String::from_str("Expected bulk string"))),
        }
    }

    /// The bytes of a bulk string.
    fn bulk_to_bytes(frame: Frame) -> (r: Result<Vec<u8>, RedisCommandError>)
        ensures
            accords(r, bulk_bytes(frame@)),
    {
        match frame {
            Frame::Bulk(bytes) => Ok(bytes),
            _ => Err(RedisCommandError::InvalidFrame(String::from_str("Expected bulk string"))),
        }
    }
}

/// Once a front part of a row of frames has no texts, the row has none, and
/// for the same reason.
pub proof fn lemma_bulk_texts_fails(frames: Seq<FrameView>, n: int)
    requires
        0 <= n <= frames.len(),
        bulk_texts(frames.take(n)) is Err,
    ensures
        bulk_texts(frames) == bulk_texts(frames.take(n)),
    decreases frames.len() - n,
{
    if n == frames.len() {
        assert(frames.take(n) =~= frames);
    } else {
        assert(frames.take(n + 1).drop_last() =~= frames.take(n));
        lemma_bulk_texts_fails(frames, n + 1);
    }
}

} // verus!
