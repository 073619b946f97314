//! Laws of reading a stream of bytes that arrives in pieces: a frame, once
//! read, is the same however many bytes follow, and the frames read are the
//! same however the stream is cut.

use vstd::prelude::*;
use crate::frame::FrameView;
use crate::wire::{
    count_text, first_crlf, first_line_end, lemma_parse_bounds, lemma_scan_crlf, lemma_scan_line,
    parse, parse_row, scan_crlf, scan_line, LineEnd, Parsed,
};

verus! {

/// A line break that was found stays where it is when bytes are added.
pub proof fn lemma_scan_crlf_extends(a: Seq<u8>, b: Seq<u8>, from: int)
    requires
        0 <= from,
        scan_crlf(a, from) is Some,
    ensures
        scan_crlf(a + b, from) == scan_crlf(a, from),
    decreases a.len() - from,
{
    let s = a + b;
    if from + 1 >= a.len() {
    } else {
        assert(s[from] == a[from] && s[from + 1] == a[from + 1]);
        if a[from] == 13 && a[from + 1] == 10 {
        } else {
            lemma_scan_crlf_extends(a, b, from + 1);
        }
    }
}

/// The end of a line that was found, and a stray byte that was found, stay
/// where they are when bytes are added.
pub proof fn lemma_scan_line_extends(a: Seq<u8>, b: Seq<u8>, from: int)
    requires
        0 <= from,
        !(scan_line(a, from) is Incomplete),
    ensures
        scan_line(a + b, from) == scan_line(a, from),
    decreases a.len() - from,
{
    let s = a + b;
    if from >= a.len() {
    } else {
        assert(s[from] == a[from]);
        if a[from] == 10 {
        } else if a[from] == 13 {
            assert(from + 1 < a.len());
            assert(s[from + 1] == a[from + 1]);
        } else {
            lemma_scan_line_extends(a, b, from + 1);
        }
    }
}

/// What was read at the front of some bytes is read at the front of the same
/// bytes with more behind them: the same frame of the same length, or the
/// same error. Only where the bytes were too few does it matter what follows.
pub proof fn lemma_parse_extends(a: Seq<u8>, b: Seq<u8>)
    requires
        !(parse(a) is Incomplete),
    ensures
        parse(a + b) == parse(a),
    decreases a.len(), 0nat,
{
    let s = a + b;
    assert(a.len() > 0);
    assert(s[0] == a[0]);
    let tag = a[0];
    let body = a.skip(1);
    assert(s.skip(1) =~= body + b);
    lemma_scan_crlf(body, 0);
    lemma_scan_line(body, 0);
    if tag == 43 || tag == 45 || tag == 58 || tag == 95 {
        lemma_scan_line_extends(body, b, 0);
        match first_line_end(body) {
            LineEnd::At(cr) => {
                assert((body + b).take(cr) =~= body.take(cr));
            },
            _ => {},
        }
    } else if tag == 36 {
        lemma_scan_crlf_extends(body, b, 0);
        let cr = first_crlf(body)->0;
        assert((body + b).take(cr) =~= body.take(cr));
        assert((body + b).skip(cr + 2) =~= body.skip(cr + 2) + b);
        let header = body.take(cr);
        let rest = body.skip(cr + 2);
        match crate::text::number_text(header) {
            Some(v) => {
                if v != -1 && 0 <= v <= crate::wire::MAX_BULK_LEN {
                    assert(rest.len() >= v + 2);
                    assert((rest + b)[v] == rest[v]);
                    assert((rest + b)[v + 1] == rest[v + 1]);
                    assert((rest + b).take(v) =~= rest.take(v));
                }
            },
            None => {},
        }
    } else if tag == 42 {
        lemma_scan_crlf_extends(body, b, 0);
        let cr = first_crlf(body)->0;
        assert((body + b).take(cr) =~= body.take(cr));
        assert((body + b).skip(cr + 2) =~= body.skip(cr + 2) + b);
        match count_text(body.take(cr)) {
            Some(count) => {
                lemma_parse_row_extends(body.skip(cr + 2), b, count);
            },
            None => {},
        }
    }
}

/// The same of a row of frames.
pub proof fn lemma_parse_row_extends(a: Seq<u8>, b: Seq<u8>, count: nat)
    requires
        !(parse_row(a, count) is Incomplete),
    ensures
        parse_row(a + b, count) == parse_row(a, count),
    decreases a.len(), count + 1,
{
    if count > 0 {
        lemma_parse_bounds(a);
        lemma_parse_extends(a, b);
        match parse(a) {
            Parsed::Complete { frame, len } => {
                assert((a + b).skip(len as int) =~= a.skip(len as int) + b);
                lemma_parse_row_extends(a.skip(len as int), b, (count - 1) as nat);
            },
            _ => {},
        }
    }
}

/// What a buffer yields when frames are read off its front one after another
/// for as long as a whole frame stands there.
pub struct Drained {
    /// The frames read, in the order they were read in.
    pub frames: Seq<FrameView>,
    /// The bytes left: the start of a frame that is not whole yet, or bytes
    /// that are no frame.
    pub rest: Seq<u8>,
}

/// The frames that stand at the front of `s`, and the bytes left behind them.
pub open spec fn drain(s: Seq<u8>) -> Drained
    decreases s.len(),
{
    match parse(s) {
        Parsed::Complete { frame, len } => if 0 < len <= s.len() {
            let later = drain(s.skip(len as int));
            Drained { frames: seq![frame] + later.frames, rest: later.rest }
        } else {
            Drained { frames: Seq::empty(), rest: s }
        },
        _ => Drained { frames: Seq::empty(), rest: s },
    }
}

/// Reading in pieces reads the same: the frames read from a stream that came
/// in two pieces, the first read as far as it went before the second came,
/// are those read from the stream at once, and the same bytes are left.
pub proof fn lemma_drain_in_pieces(a: Seq<u8>, b: Seq<u8>)
    ensures
        drain(a + b).frames == drain(a).frames + drain(drain(a).rest + b).frames,
        drain(a + b).rest == drain(drain(a).rest + b).rest,
    decreases a.len(),
{
    lemma_parse_bounds(a);
    match parse(a) {
        Parsed::Complete { frame, len } => {
            lemma_parse_extends(a, b);
            assert((a + b).skip(len as int) =~= a.skip(len as int) + b);
            lemma_drain_in_pieces(a.skip(len as int), b);
            let later = drain(a.skip(len as int));
            assert(seq![frame] + (later.frames + drain(later.rest + b).frames) =~= (seq![frame]
                + later.frames) + drain(later.rest + b).frames);
        },
        _ => {
            assert(drain(a).rest == a);
            assert(Seq::<FrameView>::empty() + drain(a + b).frames =~= drain(a + b).frames);
        },
    }
}

/// The bytes of `pieces` one after another.
pub open spec fn joined(pieces: Seq<Seq<u8>>) -> Seq<u8>
    decreases pieces.len(),
{
    if pieces.len() == 0 {
        Seq::empty()
    } else {
        joined(pieces.drop_last()) + pieces.last()
    }
}

/// What a connection yields that receives `pieces` one after another and
/// reads all the frames it can after each.
pub open spec fn drain_each(pieces: Seq<Seq<u8>>) -> Drained
    decreases pieces.len(),
{
    if pieces.len() == 0 {
        Drained { frames: Seq::empty(), rest: Seq::empty() }
    } else {
        let earlier = drain_each(pieces.drop_last());
        let last = drain(earlier.rest + pieces.last());
        Drained { frames: earlier.frames + last.frames, rest: last.rest }
    }
}

/// However a stream is cut into pieces, byte by byte or otherwise, reading
/// after each piece yields the frames, and leaves the bytes, that reading the
/// whole stream at once does.
pub proof fn lemma_any_split_reads_the_same(pieces: Seq<Seq<u8>>)
    ensures
        drain_each(pieces) == drain(joined(pieces)),
    decreases pieces.len(),
{
    if pieces.len() == 0 {
        lemma_parse_bounds(Seq::<u8>::empty());
    } else {
        lemma_any_split_reads_the_same(pieces.drop_last());
        lemma_drain_in_pieces(joined(pieces.drop_last()), pieces.last());
    }
}

} // verus!
