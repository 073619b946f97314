//! The wire format: which bytes stand for which frame.
//!
//! `wire` gives the bytes that a frame is written as. `parse` gives the frame
//! that stands at the front of a buffer, which may hold more bytes behind the
//! frame, or fewer than the frame needs.

use vstd::prelude::*;
use vstd::utf8::encode_utf8;
use crate::err::ProtocolErrorView;
use crate::frame::FrameView;
use crate::text::{decimal, number_text};
use crate::trusted::text_of;

verus! {

/// The carriage return.
pub const CR: u8 = 13;

/// The line feed.
pub const LF: u8 = 10;

/// The largest number of bytes that a bulk string holds.
pub const MAX_BULK_LEN: usize = 2147483647;

/// The line break that ends every line of the protocol.
pub open spec fn crlf() -> Seq<u8> {
    seq![CR, LF]
}

/// The bytes that a frame is written as.
pub open spec fn wire(frame: FrameView) -> Seq<u8>
    decreases frame,
{
    match frame {
        FrameView::Simple(text) => seq![43u8] + encode_utf8(text) + crlf(),
        FrameView::Error(text) => seq![45u8] + encode_utf8(text) + crlf(),
        FrameView::Integer(n) => seq![58u8] + decimal(n as int) + crlf(),
        FrameView::Bulk(bytes) => seq![36u8] + decimal(bytes.len() as int) + crlf() + bytes + crlf(),
        FrameView::Null => seq![36u8, 45u8, 49u8, CR, LF],
        FrameView::Array(items) => seq![42u8] + decimal(items.len() as int) + crlf() + wire_all(items),
    }
}

/// The bytes that a row of frames is written as: those of each frame, one
/// after another.
pub open spec fn wire_all(frames: Seq<FrameView>) -> Seq<u8>
    decreases frames,
{
    if frames.len() == 0 {
        Seq::empty()
    } else {
        wire_all(frames.drop_last()) + wire(frames.last())
    }
}

/// Whether a text can stand in a simple string or an error: it holds neither
/// a carriage return nor a line feed.
pub open spec fn plain(text: Seq<char>) -> bool {
    forall|i: int| 0 <= i < text.len() ==> #[trigger] text[i] != '\r' && text[i] != '\n'
}

/// Whether a frame can be written and read back: its texts are plain, its
/// bulk strings are no longer than bulk strings may be, and it holds no more
/// frames than can be counted.
pub open spec fn writable(frame: FrameView) -> bool
    decreases frame,
{
    match frame {
        FrameView::Simple(text) => plain(text),
        FrameView::Error(text) => plain(text),
        FrameView::Integer(_) => true,
        FrameView::Bulk(bytes) => bytes.len() <= MAX_BULK_LEN,
        FrameView::Null => true,
        FrameView::Array(items) => items.len() <= usize::MAX && forall|i: int|
            0 <= i < items.len() ==> writable(#[trigger] items[i]),
    }
}

/// Where in `s`, at or after `from`, the first line break stands: the index
/// of its carriage return.
pub open spec fn scan_crlf(s: Seq<u8>, from: int) -> Option<int>
    decreases s.len() - from,
{
    if from < 0 || from + 1 >= s.len() {
        None
    } else if s[from] == CR && s[from + 1] == LF {
        Some(from)
    } else {
        scan_crlf(s, from + 1)
    }
}

/// Where in `s` the first line break stands: the index of its carriage
/// return.
pub open spec fn first_crlf(s: Seq<u8>) -> Option<int> {
    scan_crlf(s, 0)
}

/// How a line ends that may hold neither a carriage return nor a line feed.
pub enum LineEnd {
    /// The line break stands at this index.
    At(int),
    /// The bytes end before the line does.
    Incomplete,
    /// A line feed stands alone, or a carriage return without a line feed.
    Stray,
}

/// How the line that starts at `from` ends.
pub open spec fn scan_line(s: Seq<u8>, from: int) -> LineEnd
    decreases s.len() - from,
{
    if from < 0 || from >= s.len() {
        LineEnd::Incomplete
    } else if s[from] == LF {
        LineEnd::Stray
    } else if s[from] == CR {
        if from + 1 >= s.len() {
            LineEnd::Incomplete
        } else if s[from + 1] == LF {
            LineEnd::At(from)
        } else {
            LineEnd::Stray
        }
    } else {
        scan_line(s, from + 1)
    }
}

/// How the line at the front of `s` ends.
pub open spec fn first_line_end(s: Seq<u8>) -> LineEnd {
    scan_line(s, 0)
}

/// What stands at the front of a buffer.
pub enum Parsed {
    /// A whole frame, written in the first `len` bytes.
    Complete { frame: FrameView, len: nat },
    /// The start of a frame; the bytes end before the frame does.
    Incomplete,
    /// No frame, whatever bytes may follow.
    Invalid(ProtocolErrorView),
}

/// What stands at the front of a buffer where a row of frames is due.
pub enum ParsedRow {
    /// The whole row, written in the first `len` bytes.
    Complete { frames: Seq<FrameView>, len: nat },
    /// The bytes end before the row does.
    Incomplete,
    /// No such row, whatever bytes may follow.
    Invalid(ProtocolErrorView),
}

/// The error for a length, a count or an integer that cannot be read.
pub open spec fn unreadable(text: Seq<u8>) -> ProtocolErrorView {
    ProtocolErrorView::ConversionError(text_of(text))
}

/// The frame of a line: `tag` is the byte that the line started with, `text`
/// what stood between it and the line break, `len` the length of it all. The
/// text of an explicit null is passed over.
pub open spec fn line_frame(tag: u8, text: Seq<u8>, len: nat) -> Parsed {
    if tag == 43 {
        Parsed::Complete { frame: FrameView::Simple(text_of(text)), len }
    } else if tag == 45 {
        Parsed::Complete { frame: FrameView::Error(text_of(text)), len }
    } else if tag == 58 {
        match number_text(text) {
            Some(v) => if i64::MIN <= v <= i64::MAX {
                Parsed::Complete { frame: FrameView::Integer(v as i64), len }
            } else {
                Parsed::Invalid(unreadable(text))
            },
            None => Parsed::Invalid(unreadable(text)),
        }
    } else {
        Parsed::Complete { frame: FrameView::Null, len }
    }
}

/// The bulk string whose length is written by `header` and whose bytes are
/// due at the front of `body`, a line break behind them; a length of `-1`
/// stands for null. `before` is the number of bytes up to `body`.
pub open spec fn bulk_frame(header: Seq<u8>, body: Seq<u8>, before: nat) -> Parsed {
    match number_text(header) {
        Some(v) => if v == -1 {
            Parsed::Complete { frame: FrameView::Null, len: before }
        } else if 0 <= v <= MAX_BULK_LEN {
            if body.len() < v + 2 {
                Parsed::Incomplete
            } else if body[v] == CR && body[v + 1] == LF {
                Parsed::Complete { frame: FrameView::Bulk(body.take(v)), len: (before + v + 2) as nat }
            } else {
                Parsed::Invalid(unreadable(header))
            }
        } else {
            Parsed::Invalid(unreadable(header))
        },
        None => Parsed::Invalid(unreadable(header)),
    }
}

/// The number of frames that the header of an array announces.
pub open spec fn count_text(header: Seq<u8>) -> Option<nat> {
    match number_text(header) {
        Some(v) => if 0 <= v <= usize::MAX {
            Some(v as nat)
        } else {
            None
        },
        None => None,
    }
}

/// A row that starts with `frame`, written in `len` bytes, and goes on as
/// `rest` says.
pub open spec fn row_after(frame: FrameView, len: nat, rest: ParsedRow) -> ParsedRow {
    match rest {
        ParsedRow::Complete { frames, len: more } => ParsedRow::Complete {
            frames: seq![frame] + frames,
            len: len + more,
        },
        other => other,
    }
}

/// The frame that stands at the front of `s`.
pub open spec fn parse(s: Seq<u8>) -> Parsed
    decreases s.len(), 0nat,
{
    if s.len() == 0 {
        Parsed::Incomplete
    } else {
        let tag = s[0];
        let body = s.skip(1);
        if tag == 43 || tag == 45 || tag == 58 || tag == 95 {
            match first_line_end(body) {
                LineEnd::At(cr) => line_frame(tag, body.take(cr), (cr + 3) as nat),
                LineEnd::Incomplete => Parsed::Incomplete,
                LineEnd::Stray => Parsed::Invalid(ProtocolErrorView::ExcessiveNewline),
            }
        } else if tag == 36 {
            match first_crlf(body) {
                Some(cr) => bulk_frame(body.take(cr), body.skip(cr + 2), (cr + 3) as nat),
                None => Parsed::Incomplete,
            }
        } else if tag == 42 {
            match first_crlf(body) {
                Some(cr) => match count_text(body.take(cr)) {
                    Some(count) => {
                        proof {
                            lemma_scan_crlf(body, 0);
                        }
                        match parse_row(body.skip(cr + 2), count) {
                            ParsedRow::Complete { frames, len } => Parsed::Complete {
                                frame: FrameView::Array(frames),
                                len: (cr + 3 + len) as nat,
                            },
                            ParsedRow::Incomplete => Parsed::Incomplete,
                            ParsedRow::Invalid(e) => Parsed::Invalid(e),
                        }
                    },
                    None => Parsed::Invalid(unreadable(body.take(cr))),
                },
                None => Parsed::Incomplete,
            }
        } else {
            Parsed::Invalid(ProtocolErrorView::UnsupportedFrame(tag))
        }
    }
}

/// The row of `count` frames that stands at the front of `s`. (A frame takes
/// at least one byte and no more bytes than there are.)
pub open spec fn parse_row(s: Seq<u8>, count: nat) -> ParsedRow
    decreases s.len(), count + 1,
{
    if count == 0 {
        ParsedRow::Complete { frames: Seq::empty(), len: 0 }
    } else {
        match parse(s) {
            Parsed::Complete { frame, len } => if 0 < len <= s.len() {
                row_after(frame, len, parse_row(s.skip(len as int), (count - 1) as nat))
            } else {
                ParsedRow::Incomplete
            },
            Parsed::Incomplete => ParsedRow::Incomplete,
            Parsed::Invalid(e) => ParsedRow::Invalid(e),
        }
    }
}

/// A row that starts with `frames`, written in `len` bytes, and goes on as
/// `rest` says.
pub open spec fn row_join(frames: Seq<FrameView>, len: nat, rest: ParsedRow) -> ParsedRow {
    match rest {
        ParsedRow::Complete { frames: more_frames, len: more } => ParsedRow::Complete {
            frames: frames + more_frames,
            len: len + more,
        },
        other => other,
    }
}

/// A frame takes at least one byte and no more bytes than there are.
pub proof fn lemma_parse_bounds(s: Seq<u8>)
    ensures
        parse(s) matches Parsed::Complete { frame, len } ==> 0 < len <= s.len(),
    decreases s.len(), 0nat,
{
    if s.len() > 0 {
        let tag = s[0];
        let body = s.skip(1);
        lemma_scan_crlf(body, 0);
        lemma_scan_line(body, 0);
        if tag == 42 {
            match first_crlf(body) {
                Some(cr) => match count_text(body.take(cr)) {
                    Some(count) => {
                        lemma_parse_row_bounds(body.skip(cr + 2), count);
                    },
                    None => {},
                },
                None => {},
            }
        }
    }
}

/// A row of frames takes no more bytes than there are, and holds as many
/// frames as were due.
pub proof fn lemma_parse_row_bounds(s: Seq<u8>, count: nat)
    ensures
        parse_row(s, count) matches ParsedRow::Complete { frames, len } ==> len <= s.len()
            && frames.len() == count,
    decreases s.len(), count + 1,
{
    if count > 0 {
        lemma_parse_bounds(s);
        match parse(s) {
            Parsed::Complete { frame, len } => {
                if 0 < len <= s.len() {
                    lemma_parse_row_bounds(s.skip(len as int), (count - 1) as nat);
                }
            },
            _ => {},
        }
    }
}

/// What makes bytes invalid is never a shortage of them: an error other than
/// `NotEnoughData` stands for bytes that no further bytes can mend.
pub proof fn lemma_invalid_is_fatal(s: Seq<u8>)
    ensures
        parse(s) matches Parsed::Invalid(e) ==> e.is_fatal() && !(e is ConnectionReset),
    decreases s.len(), 0nat,
{
    if s.len() > 0 {
        let tag = s[0];
        let body = s.skip(1);
        lemma_scan_crlf(body, 0);
        if tag == 42 {
            match first_crlf(body) {
                Some(cr) => match count_text(body.take(cr)) {
                    Some(count) => {
                        lemma_invalid_row_is_fatal(body.skip(cr + 2), count);
                    },
                    None => {},
                },
                None => {},
            }
        }
    }
}

/// The same of a row of frames.
pub proof fn lemma_invalid_row_is_fatal(s: Seq<u8>, count: nat)
    ensures
        parse_row(s, count) matches ParsedRow::Invalid(e) ==> e.is_fatal() && !(e is ConnectionReset),
    decreases s.len(), count + 1,
{
    if count > 0 {
        lemma_invalid_is_fatal(s);
        match parse(s) {
            Parsed::Complete { frame, len } => {
                if 0 < len <= s.len() {
                    lemma_invalid_row_is_fatal(s.skip(len as int), (count - 1) as nat);
                }
            },
            _ => {},
        }
    }
}

/// Where a line break is found, it stands, inside the bytes and not before
/// `from`, and no line break stands between `from` and it.
pub proof fn lemma_scan_crlf(s: Seq<u8>, from: int)
    requires
        0 <= from,
    ensures
        match scan_crlf(s, from) {
            Some(cr) => from <= cr && cr + 1 < s.len() && s[cr] == CR && s[cr + 1] == LF && forall|
                i: int,
            |
                from <= i < cr ==> !(#[trigger] s[i] == CR && s[i + 1] == LF),
            None => forall|i: int| from <= i && i + 1 < s.len() ==> !(#[trigger] s[i] == CR && s[i + 1] == LF),
        },
    decreases s.len() - from,
{
    if from + 1 >= s.len() {
    } else if s[from] == CR && s[from + 1] == LF {
    } else {
        lemma_scan_crlf(s, from + 1);
    }
}

/// Where a line ends in a line break, the break stands inside the bytes and
/// not before `from`, and neither a carriage return nor a line feed stands
/// between `from` and it.
pub proof fn lemma_scan_line(s: Seq<u8>, from: int)
    requires
        0 <= from,
    ensures
        scan_line(s, from) matches LineEnd::At(cr) ==> from <= cr && cr + 1 < s.len() && s[cr] == CR
            && s[cr + 1] == LF && forall|i: int| from <= i < cr ==> #[trigger] s[i] != CR && s[i] != LF,
    decreases s.len() - from,
{
    if from >= s.len() {
    } else if s[from] == LF {
    } else if s[from] == CR {
    } else {
        lemma_scan_line(s, from + 1);
    }
}

} // verus!
