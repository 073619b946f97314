//! Frames: the units of the wire protocol, how they are read from bytes and
//! how they are written as bytes.

use vstd::prelude::*;
use vstd::string::*;
use vstd::slice::slice_to_vec;
use crate::cursor::Cursor;
use crate::err::{CommandErrorView, ProtocolErrorView, RedisCommandError, RedisProtocolError};
use crate::text::{is_digit, is_sign, number_text, push_decimal, push_decimal_digits};
use crate::trusted::{atoi_i64, atoi_reading, atoi_usize, digit_run, lossy_string};
use crate::wire::{
    bulk_frame, count_text, first_crlf, first_line_end, lemma_parse_bounds, lemma_scan_crlf,
    lemma_scan_line, parse, parse_row, row_join, scan_crlf, scan_line, unreadable, wire, wire_all,
    LineEnd, Parsed, CR, LF, MAX_BULK_LEN,
};

verus! {

/// One unit of the wire protocol.
#[derive(Debug, PartialEq, Eq)]
pub enum Frame {
    /// `+{text}\r\n`
    Simple(String),
    /// `-{text}\r\n`
    Error(String),
    /// `:{integer}\r\n`
    Integer(i64),
    /// `${length}\r\n{bytes}\r\n`
    Bulk(Vec<u8>),
    /// `$-1\r\n`, or `_\r\n` on input
    Null,
    /// `*{count}\r\n` and then that many frames
    Array(Vec<Frame>),
}

/// A frame as a mathematical value.
pub enum FrameView {
    Simple(Seq<char>),
    Error(Seq<char>),
    Integer(i64),
    Bulk(Seq<u8>),
    Null,
    Array(Seq<FrameView>),
}

/// The mathematical values of a sequence of frames.
pub open spec fn frame_views(frames: Seq<Frame>) -> Seq<FrameView>
    decreases frames,
{
    Seq::new(frames.len(), |i: int| if 0 <= i < frames.len() { frames[i]@ } else { FrameView::Null })
}

impl View for Frame {
    type V = FrameView;

    open spec fn view(&self) -> FrameView
        decreases self,
    {
        match self {
            Frame::Simple(s) => FrameView::Simple(s@),
            Frame::Error(s) => FrameView::Error(s@),
            Frame::Integer(n) => FrameView::Integer(*n),
            Frame::Bulk(b) => FrameView::Bulk(b@),
            Frame::Null => FrameView::Null,
            Frame::Array(v) => FrameView::Array(frame_views(v@)),
        }
    }
}

/// Whether a line break stands at the cursor. If so the cursor steps over it;
/// if not it steps over one byte.
pub fn is_crlf(cursor: &mut Cursor) -> (found: bool)
    requires
        old(cursor).rest().len() > 0,
    ensures
        final(cursor).buffer() == old(cursor).buffer(),
        found == (old(cursor).rest().len() >= 2 && old(cursor).rest()[0] == CR && old(cursor).rest()[1]
            == LF),
        final(cursor).offset() == old(cursor).offset() + (if found { 2nat } else { 1nat }),
        final(cursor).rest() == old(cursor).rest().skip(if found { 2int } else { 1int }),
{
    let ghost s = cursor.rest();
    let first = cursor.get_u8();
    if first == CR && cursor.has_remaining() && cursor.peek(0) == LF {
        cursor.advance(1);
        assert(cursor.rest() =~= s.skip(2));
        true
    } else {
        false
    }
}

/// Looks for the next line break and steps over it. Without one the bytes at
/// hand do not suffice, and the cursor ends up behind the last of them.
pub fn has_crlf(cursor: &mut Cursor) -> (r: Result<(), RedisProtocolError>)
    ensures
        final(cursor).buffer() == old(cursor).buffer(),
        match first_crlf(old(cursor).rest()) {
            Some(cr) => r is Ok && final(cursor).offset() == old(cursor).offset() + cr + 2
                && final(cursor).rest() == old(cursor).rest().skip(cr + 2),
            None => r matches Err(e) && e@ == ProtocolErrorView::NotEnoughData && final(cursor).rest().len()
                == 0,
        },
{
    let ghost s = cursor.rest();
    let ghost mut k: int = 0;
    assert(s.skip(0) =~= s);
    while cursor.has_remaining()
        invariant
            cursor.buffer() == old(cursor).buffer(),
            s == old(cursor).rest(),
            0 <= k <= s.len(),
            cursor.offset() == old(cursor).offset() + k,
            cursor.rest() == s.skip(k),
            scan_crlf(s, 0) == scan_crlf(s, k),
        decreases s.len() - k,
    {
        let found = is_crlf(cursor);
        if found {
            assert(s.skip(k).skip(2) =~= s.skip(k + 2));
            assert(s.skip(k)[0] == s[k] && s.skip(k)[1] == s[k + 1]);
            return Ok(());
        }
        proof {
            assert(s.skip(k).skip(1) =~= s.skip(k + 1));
            assert(s.skip(k)[0] == s[k]);
            if k + 1 < s.len() {
                assert(s.skip(k)[1] == s[k + 1]);
            }
            k = k + 1;
        }
    }
    Err(RedisProtocolError::NotEnoughData)
}

/// Looks for the next line break, steps over it, and returns how many bytes
/// stood before it.
pub fn seek_newline(cursor: &mut Cursor) -> (r: Result<usize, RedisProtocolError>)
    ensures
        final(cursor).buffer() == old(cursor).buffer(),
        match first_crlf(old(cursor).rest()) {
            Some(cr) => {
                &&& r == Ok::<usize, RedisProtocolError>(cr as usize)
                &&& final(cursor).offset() == old(cursor).offset() + cr + 2
                &&& final(cursor).rest() == old(cursor).rest().skip(cr + 2)
            },
            None => r matches Err(e) && e@ == ProtocolErrorView::NotEnoughData && final(cursor).rest().len()
                == 0,
        },
{
    let start = cursor.position();
    proof {
        lemma_scan_crlf(cursor.rest(), 0);
    }
    has_crlf(cursor)?;
    Ok(cursor.position() - start - 2)
}

/// Looks for the end of a line that may hold neither a carriage return nor a
/// line feed, and steps over the line break that ends it.
pub fn has_crlf_with_checks(cursor: &mut Cursor) -> (r: Result<(), RedisProtocolError>)
    ensures
        final(cursor).buffer() == old(cursor).buffer(),
        match first_line_end(old(cursor).rest()) {
            LineEnd::At(cr) => r is Ok && final(cursor).offset() == old(cursor).offset() + cr + 2
                && final(cursor).rest() == old(cursor).rest().skip(cr + 2),
            LineEnd::Incomplete => r matches Err(e) && e@ == ProtocolErrorView::NotEnoughData,
            LineEnd::Stray => r matches Err(e) && e@ == ProtocolErrorView::ExcessiveNewline,
        },
{
    let ghost s = cursor.rest();
    let ghost mut k: int = 0;
    assert(s.skip(0) =~= s);
    while cursor.has_remaining()
        invariant
            cursor.buffer() == old(cursor).buffer(),
            s == old(cursor).rest(),
            0 <= k <= s.len(),
            cursor.offset() == old(cursor).offset() + k,
            cursor.rest() == s.skip(k),
            scan_line(s, 0) == scan_line(s, k),
        decreases s.len() - k,
    {
        let byte = cursor.get_u8();
        assert(s.skip(k)[0] == s[k]);
        assert(s.skip(k).skip(1) =~= s.skip(k + 1));
        if byte == LF {
            return Err(RedisProtocolError::ExcessiveNewline);
        }
        if byte == CR {
            if !cursor.has_remaining() {
                return Err(RedisProtocolError::NotEnoughData);
            }
            assert(s.skip(k + 1)[0] == s[k + 1]);
            if cursor.get_u8() == LF {
                assert(s.skip(k + 1).skip(1) =~= s.skip(k + 2));
                return Ok(());
            }
            return Err(RedisProtocolError::ExcessiveNewline);
        }
        proof {
            k = k + 1;
        }
    }
    Err(RedisProtocolError::NotEnoughData)
}

/// The bytes of the buffer from `start` to `end`, the byte at `end` included:
/// none where `start` lies just behind `end`.
pub fn get_byte_slice<'a>(cursor: &Cursor<'a>, start: usize, end: usize) -> (bytes: &'a [u8])
    requires
        start <= end + 1,
        end < cursor.buffer().len(),
    ensures
        bytes@ == cursor.buffer().subrange(start as int, end + 1),
{
    let total = cursor.len();
    assert(end < total);
    cursor.slice(start, end + 1)
}

/// The bytes of the buffer from `start` up to `end`.
fn text_between<'a>(cursor: &Cursor<'a>, start: usize, end: usize) -> (bytes: &'a [u8])
    requires
        start <= end <= cursor.buffer().len(),
    ensures
        bytes@ == cursor.buffer().subrange(start as int, end as int),
{
    if start == end {
        cursor.slice(start, start)
    } else {
        get_byte_slice(cursor, start, end - 1)
    }
}

/// The bytes from the cursor up to the next line break, which the cursor
/// steps over. The bytes are not looked at otherwise.
pub fn get_line<'a>(cursor: &mut Cursor<'a>) -> (r: Result<&'a [u8], RedisProtocolError>)
    ensures
        final(cursor).buffer() == old(cursor).buffer(),
        match first_crlf(old(cursor).rest()) {
            Some(cr) => {
                &&& r matches Ok(line) && line@ == old(cursor).rest().take(cr)
                &&& final(cursor).offset() == old(cursor).offset() + cr + 2
                &&& final(cursor).rest() == old(cursor).rest().skip(cr + 2)
            },
            None => r matches Err(e) && e@ == ProtocolErrorView::NotEnoughData && final(cursor).rest().len()
                == 0,
        },
{
    let start = cursor.position();
    let ghost s = cursor.rest();
    proof {
        lemma_scan_crlf(s, 0);
    }
    let len = seek_newline(cursor)?;
    let total = cursor.len();
    assert(start + len + 2 <= total);
    let line = text_between(cursor, start, start + len);
    assert(line@ =~= s.take(len as int));
    Ok(line)
}

/// The text of a line that may hold neither a carriage return nor a line
/// feed; the cursor steps over the line and the line break that ends it.
fn checked_line<'a>(cursor: &mut Cursor<'a>) -> (r: Result<&'a [u8], RedisProtocolError>)
    ensures
        final(cursor).buffer() == old(cursor).buffer(),
        match first_line_end(old(cursor).rest()) {
            LineEnd::At(cr) => {
                &&& r matches Ok(line) && line@ == old(cursor).rest().take(cr)
                &&& final(cursor).offset() == old(cursor).offset() + cr + 2
                &&& final(cursor).rest() == old(cursor).rest().skip(cr + 2)
            },
            LineEnd::Incomplete => r matches Err(e) && e@ == ProtocolErrorView::NotEnoughData,
            LineEnd::Stray => r matches Err(e) && e@ == ProtocolErrorView::ExcessiveNewline,
        },
{
    let start = cursor.position();
    let ghost s = cursor.rest();
    proof {
        lemma_scan_line(s, 0);
    }
    has_crlf_with_checks(cursor)?;
    let end = cursor.position() - 2;
    let line = text_between(cursor, start, end);
    assert(line@ =~= s.take(end - start));
    Ok(line)
}

/// Where every byte from `from` on is a digit, the run of digits that starts
/// there ends with the text.
proof fn lemma_digit_run(text: Seq<u8>, from: int)
    requires
        0 <= from <= text.len(),
        forall|i: int| from <= i < text.len() ==> is_digit(#[trigger] text[i]),
    ensures
        digit_run(text, from) == text.len(),
    decreases text.len() - from,
{
    if from < text.len() {
        lemma_digit_run(text, from + 1);
    }
}

/// Of a text that writes a number and nothing else, `atoi` reads that number.
pub proof fn lemma_atoi_reads_number(text: Seq<u8>)
    requires
        number_text(text) is Some,
    ensures
        atoi_reading(text) == number_text(text),
{
    let start: int = if text.len() > 0 && is_sign(text[0]) { 1 } else { 0 };
    let body = text.subrange(start, text.len() as int);
    assert forall|i: int| start <= i < text.len() implies is_digit(#[trigger] text[i]) by {
        assert(is_digit(body[i - start]));
    }
    lemma_digit_run(text, start);
}

/// Whether `text` writes a number: an optional sign, then digits only, at
/// least one.
pub fn is_number_text(text: &[u8]) -> (is: bool)
    ensures
        is == (number_text(text@) is Some),
{
    let len = text.len();
    let start: usize = if len > 0 && (text[0] == 43 || text[0] == 45) { 1 } else { 0 };
    if start == len {
        assert(text@.subrange(start as int, len as int).len() == 0);
        return false;
    }
    let ghost body = text@.subrange(start as int, len as int);
    let mut i: usize = start;
    while i < len
        invariant
            start <= i <= len,
            len == text@.len(),
            start == (if text@.len() > 0 && is_sign(text@[0]) { 1int } else { 0int }),
            body == text@.subrange(start as int, len as int),
            forall|j: int| 0 <= j < i - start ==> is_digit(#[trigger] body[j]),
        decreases len - i,
    {
        if text[i] < 48 || text[i] > 57 {
            assert(!is_digit(body[i - start]));
            return false;
        }
        i += 1;
    }
    true
}

/// The 64-bit integer that `text` writes; `ConversionError` with the text
/// where it writes none.
pub fn read_integer(text: &[u8]) -> (r: Result<i64, RedisProtocolError>)
    ensures
        match number_text(text@) {
            Some(v) => if i64::MIN <= v <= i64::MAX {
                r == Ok::<i64, RedisProtocolError>(v as i64)
            } else {
                r matches Err(e) && e@ == unreadable(text@)
            },
            None => r matches Err(e) && e@ == unreadable(text@),
        },
{
    if is_number_text(text) {
        proof {
            lemma_atoi_reads_number(text@);
        }
        if let Some(n) = atoi_i64(text) {
            return Ok(n);
        }
    }
    Err(RedisProtocolError::ConversionError(lossy_string(text)))
}

/// The count that `text` writes; `ConversionError` with the text where it
/// writes none.
pub fn read_count(text: &[u8]) -> (r: Result<usize, RedisProtocolError>)
    ensures
        match count_text(text@) {
            Some(n) => r == Ok::<usize, RedisProtocolError>(n as usize),
            None => r matches Err(e) && e@ == unreadable(text@),
        },
{
    if is_number_text(text) {
        proof {
            lemma_atoi_reads_number(text@);
        }
        if let Some(n) = atoi_usize(text) {
            return Ok(n);
        }
    }
    Err(RedisProtocolError::ConversionError(lossy_string(text)))
}

/// How the result of reading at a cursor accords with what stands there:
/// a frame read moves the cursor over it, and every failure is the one that
/// the bytes call for.
pub open spec fn reads<T>(
    before: Cursor,
    after: Cursor,
    r: Result<T, RedisProtocolError>,
) -> bool {
    &&& after.buffer() == before.buffer()
    &&& match parse(before.rest()) {
        Parsed::Complete { frame, len } => r is Ok && after.offset() == before.offset() + len
            && after.rest() == before.rest().skip(len as int),
        Parsed::Incomplete => r matches Err(e) && e@ == ProtocolErrorView::NotEnoughData,
        Parsed::Invalid(x) => r matches Err(e) && e@ == x,
    }
}

/// Steps over the bytes of a bulk string whose header was read: `header` is
/// the text of its length. Returns where in the buffer the bytes stand, or
/// `None` for the null that a length of `-1` stands for.
fn skip_bulk(cursor: &mut Cursor, header: &[u8]) -> (r: Result<
    Option<(usize, usize)>,
    RedisProtocolError,
>)
    ensures
        final(cursor).buffer() == old(cursor).buffer(),
        match bulk_frame(header@, old(cursor).rest(), 0) {
            Parsed::Complete { frame, len } => {
                &&& r matches Ok(found) && match found {
                    Some((start, end)) => start <= end <= old(cursor).buffer().len() && frame
                        == FrameView::Bulk(old(cursor).buffer().subrange(start as int, end as int)),
                    None => frame == FrameView::Null,
                }
                &&& final(cursor).offset() == old(cursor).offset() + len
                &&& final(cursor).rest() == old(cursor).rest().skip(len as int)
            },
            Parsed::Incomplete => r matches Err(e) && e@ == ProtocolErrorView::NotEnoughData,
            Parsed::Invalid(x) => r matches Err(e) && e@ == x,
        },
{
    let ghost s = cursor.rest();
    let len = read_integer(header)?;
    if len == -1 {
        assert(s.skip(0) =~= s);
        return Ok(None);
    }
    if len < 0 || len > MAX_BULK_LEN as i64 {
        return Err(RedisProtocolError::ConversionError(lossy_string(header)));
    }
    let count = len as usize;
    if cursor.remaining() < count + 2 {
        return Err(RedisProtocolError::NotEnoughData);
    }
    if cursor.peek(count) == CR && cursor.peek(count + 1) == LF {
        let start = cursor.position();
        let total = cursor.len();
        assert(start + count + 2 <= total);
        cursor.advance(count + 2);
        assert(s.take(count as int) =~= cursor.buffer().subrange(start as int, start + count));
        Ok(Some((start, start + count)))
    } else {
        Err(RedisProtocolError::ConversionError(lossy_string(header)))
    }
}

/// The outcome of `parse` with `before` more bytes in front of the frame.
pub open spec fn shifted(parsed: Parsed, before: nat) -> Parsed {
    match parsed {
        Parsed::Complete { frame, len } => Parsed::Complete { frame, len: len + before },
        other => other,
    }
}

/// A bulk string is the same wherever the count of the bytes before it
/// starts.
proof fn lemma_bulk_frame_shift(header: Seq<u8>, body: Seq<u8>, before: nat)
    ensures
        bulk_frame(header, body, before) == shifted(bulk_frame(header, body, 0), before),
{
}

impl Frame {
    /// Whether a whole frame stands at the cursor. If so the cursor steps over
    /// it, and no frame is built. If not, the error tells whether more bytes
    /// may help, `NotEnoughData`, or none can.
    pub fn is_parsable(cursor: &mut Cursor) -> (r: Result<(), RedisProtocolError>)
        ensures
            reads(*old(cursor), *final(cursor), r),
        decreases old(cursor).rest().len(),
    {
        let ghost s = cursor.rest();
        if !cursor.has_remaining() {
            return Err(RedisProtocolError::NotEnoughData);
        }
        let tag = cursor.get_u8();
        let ghost body = s.skip(1);
        proof {
            lemma_scan_crlf(body, 0);
            lemma_scan_line(body, 0);
        }
        if tag == 43 || tag == 45 || tag == 95 {
            has_crlf_with_checks(cursor)?;
            assert(cursor.rest() =~= s.skip((first_line_end(body)->At_0 + 3) as int));
            Ok(())
        } else if tag == 58 {
            let text = checked_line(cursor)?;
            read_integer(text)?;
            assert(cursor.rest() =~= s.skip((first_line_end(body)->At_0 + 3) as int));
            Ok(())
        } else if tag == 36 {
            let header = get_line(cursor)?;
            let ghost cr = first_crlf(body)->0;
            proof {
                lemma_bulk_frame_shift(header@, body.skip(cr + 2), (cr + 3) as nat);
            }
            skip_bulk(cursor, header)?;
            proof {
                let len = bulk_frame(header@, body.skip(cr + 2), 0)->len;
                assert(body.skip(cr + 2).skip(len as int) =~= s.skip((cr + 3 + len) as int));
            }
            Ok(())
        } else if tag == 42 {
            let header = get_line(cursor)?;
            let count = read_count(header)?;
            let ghost cr = first_crlf(body)->0;
            let ghost row = body.skip(cr + 2);
            let ghost mut done: Seq<FrameView> = Seq::empty();
            let ghost mut used: nat = 0;
            let mut i: usize = 0;
            assert(row.skip(0) =~= row);
            while i < count
                invariant
                    cursor.buffer() == old(cursor).buffer(),
                    s == old(cursor).rest(),
                    s.len() > 0,
                    s[0] == 42,
                    body == s.skip(1),
                    first_crlf(body) == Some(cr),
                    count_text(body.take(cr)) == Some(count as nat),
                    row == body.skip(cr + 2),
                    row.len() < s.len(),
                    i <= count,
                    used <= row.len(),
                    cursor.rest() == row.skip(used as int),
                    cursor.offset() == old(cursor).offset() + cr + 3 + used,
                    parse_row(row, count as nat) == row_join(
                        done,
                        used,
                        parse_row(cursor.rest(), (count - i) as nat),
                    ),
                decreases count - i,
            {
                let ghost here = cursor.rest();
                proof {
                    lemma_parse_bounds(here);
                }
                Frame::is_parsable(cursor)?;
                proof {
                    let frame = parse(here)->frame;
                    let len = parse(here)->len;
                    assert(row.skip(used as int).skip(len as int) =~= row.skip((used + len) as int));
                    let rest = parse_row(here.skip(len as int), (count - i - 1) as nat);
                    assert(done + (seq![frame] + rest->frames) =~= done.push(frame) + rest->frames);
                    done = done.push(frame);
                    used = used + len;
                }
                i += 1;
            }
            proof {
                assert(done + Seq::<FrameView>::empty() =~= done);
                assert(row.skip(used as int) =~= s.skip((cr + 3 + used) as int));
            }
            Ok(())
        } else {
            Err(RedisProtocolError::UnsupportedFrame(tag))
        }
    }

    /// Reads the frame that stands at the cursor, which steps over it. The
    /// error tells whether more bytes may help, `NotEnoughData`, or none can.
    pub fn parse(cursor: &mut Cursor) -> (r: Result<Frame, RedisProtocolError>)
        ensures
            reads(*old(cursor), *final(cursor), r),
            r matches Ok(frame) ==> parse(old(cursor).rest()) matches Parsed::Complete {
                frame: model,
                len,
            } && frame@ == model,
        decreases old(cursor).rest().len(),
    {
        let ghost s = cursor.rest();
        if !cursor.has_remaining() {
            return Err(RedisProtocolError::NotEnoughData);
        }
        let tag = cursor.get_u8();
        let ghost body = s.skip(1);
        proof {
            lemma_scan_crlf(body, 0);
            lemma_scan_line(body, 0);
        }
        if tag == 43 || tag == 45 || tag == 58 || tag == 95 {
            let text = checked_line(cursor)?;
            assert(cursor.rest() =~= s.skip((first_line_end(body)->At_0 + 3) as int));
            if tag == 43 {
                Ok(Frame::Simple(lossy_string(text)))
            } else if tag == 45 {
                Ok(Frame::Error(lossy_string(text)))
            } else if tag == 58 {
                let n = read_integer(text)?;
                Ok(Frame::Integer(n))
            } else {
                Ok(Frame::Null)
            }
        } else if tag == 36 {
            let header = get_line(cursor)?;
            let ghost cr = first_crlf(body)->0;
            proof {
                lemma_bulk_frame_shift(header@, body.skip(cr + 2), (cr + 3) as nat);
            }
            let found = skip_bulk(cursor, header)?;
            proof {
                let len = bulk_frame(header@, body.skip(cr + 2), 0)->len;
                assert(body.skip(cr + 2).skip(len as int) =~= s.skip((cr + 3 + len) as int));
            }
            match found {
                Some((start, end)) => Ok(Frame::Bulk(slice_to_vec(cursor.slice(start, end)))),
                None => Ok(Frame::Null),
            }
        } else if tag == 42 {
            let header = get_line(cursor)?;
            let count = read_count(header)?;
            let ghost cr = first_crlf(body)->0;
            let ghost row = body.skip(cr + 2);
            let ghost mut used: nat = 0;
            let mut frames: Vec<Frame> = Vec::new();
            let mut i: usize = 0;
            assert(row.skip(0) =~= row);
            assert(frame_views(frames@) =~= Seq::<FrameView>::empty());
            while i < count
                invariant
                    cursor.buffer() == old(cursor).buffer(),
                    s == old(cursor).rest(),
                    s.len() > 0,
                    s[0] == 42,
                    body == s.skip(1),
                    first_crlf(body) == Some(cr),
                    count_text(body.take(cr)) == Some(count as nat),
                    row == body.skip(cr + 2),
                    row.len() < s.len(),
                    i <= count,
                    frames@.len() == i,
                    used <= row.len(),
                    cursor.rest() == row.skip(used as int),
                    cursor.offset() == old(cursor).offset() + cr + 3 + used,
                    parse_row(row, count as nat) == row_join(
                        frame_views(frames@),
                        used,
                        parse_row(cursor.rest(), (count - i) as nat),
                    ),
                decreases count - i,
            {
                let ghost here = cursor.rest();
                let ghost done = frame_views(frames@);
                proof {
                    lemma_parse_bounds(here);
                }
                let frame = Frame::parse(cursor)?;
                frames.push(frame);
                proof {
                    let model = parse(here)->frame;
                    let len = parse(here)->len;
                    assert(row.skip(used as int).skip(len as int) =~= row.skip((used + len) as int));
                    let rest = parse_row(here.skip(len as int), (count - i - 1) as nat);
                    assert(frame_views(frames@) =~= done.push(model));
                    assert(done + (seq![model] + rest->frames) =~= done.push(model) + rest->frames);
                    used = used + len;
                }
                i += 1;
            }
            proof {
                assert(frame_views(frames@) + Seq::<FrameView>::empty() =~= frame_views(frames@));
                assert(row.skip(used as int) =~= s.skip((cr + 3 + used) as int));
            }
            Ok(Frame::Array(frames))
        } else {
            Err(RedisProtocolError::UnsupportedFrame(tag))
        }
    }

    /// Writes the frame behind what `out` holds.
    pub fn encode(&self, out: &mut Vec<u8>)
        ensures
            final(out)@ == old(out)@ + wire(self@),
        decreases self,
    {
        match self {
            Frame::Simple(text) => {
                out.push(43);
                out.extend_from_slice(text.as_str().as_bytes());
                out.push(CR);
                out.push(LF);
                assert(final(out)@ =~= old(out)@ + wire(self@));
            },
            Frame::Error(text) => {
                out.push(45);
                out.extend_from_slice(text.as_str().as_bytes());
                out.push(CR);
                out.push(LF);
                assert(final(out)@ =~= old(out)@ + wire(self@));
            },
            Frame::Integer(n) => {
                out.push(58);
                push_decimal(*n, out);
                out.push(CR);
                out.push(LF);
                assert(final(out)@ =~= old(out)@ + wire(self@));
            },
            Frame::Bulk(bytes) => {
                out.push(36);
                push_decimal_digits(bytes.len() as u128, out);
                out.push(CR);
                out.push(LF);
                out.extend_from_slice(bytes.as_slice());
                out.push(CR);
                out.push(LF);
                assert(final(out)@ =~= old(out)@ + wire(self@));
            },
            Frame::Null => {
                out.push(36);
                out.push(45);
                out.push(49);
                out.push(CR);
                out.push(LF);
                assert(final(out)@ =~= old(out)@ + wire(self@));
            },
            Frame::Array(frames) => {
                out.push(42);
                push_decimal_digits(frames.len() as u128, out);
                out.push(CR);
                out.push(LF);
                let ghost items = frame_views(frames@);
                let ghost head = out@;
                assert(head =~= old(out)@ + (seq![42u8] + crate::text::decimal(items.len() as int)
                    + crate::wire::crlf()));
                assert(items.take(0) =~= Seq::<FrameView>::empty());
                let mut i: usize = 0;
                while i < frames.len()
                    invariant
                        i <= frames@.len(),
                        items == frame_views(frames@),
                        self == Frame::Array(*frames),
                        out@ == head + wire_all(items.take(i as int)),
                    decreases frames@.len() - i,
                {
                    assert(items.take(i + 1).drop_last() =~= items.take(i as int));
                    assert(items.take(i + 1).last() == frames@[i as int]@);
                    proof {
                        vstd::std_specs::vec::axiom_vec_index_decreases(*frames, i as int);
                        assert(self->Array_0 == *frames);
                        assert(decreases_to!(*self => self->Array_0));
                    }
                    frames[i].encode(out);
                    assert(out@ =~= head + wire_all(items.take(i + 1)));
                    i += 1;
                }
                assert(items.take(frames@.len() as int) =~= items);
                assert(final(out)@ =~= old(out)@ + wire(self@));
            },
        }
    }

    /// Puts `frame` behind the frames of an array. Any other frame stays as it
    /// is, and the call fails with `InvalidFrame`.
    pub fn append(&mut self, frame: Frame) -> (r: Result<(), RedisCommandError>)
        ensures
            match old(self)@ {
                FrameView::Array(items) => r is Ok && final(self)@ == FrameView::Array(
                    items.push(frame@),
                ),
                _ => {
                    &&& final(self)@ == old(self)@
                    &&& r matches Err(e) && e@ == CommandErrorView::InvalidFrame(
                        "Cannot append to a non-Array Frame"@,
                    )
                },
            },
    {
        match self {
            Frame::Array(frames) => {
                let ghost before = frame_views(frames@);
                frames.push(frame);
                assert(frame_views(frames@) =~= before.push(frame@));
                Ok(())
            },
            _ => Err(
                RedisCommandError::InvalidFrame(String::from_str("Cannot append to a non-Array Frame")),
            ),
        }
    }
}

} // verus!
