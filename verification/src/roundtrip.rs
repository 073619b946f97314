//! The law of the codec: a frame that is written is read back as it was.

use vstd::prelude::*;
use vstd::utf8::{
    encode_scalar, encode_utf8, encode_utf8_decode_utf8, encode_utf8_valid_utf8,
    has_width_1_encoding, has_width_2_encoding, has_width_3_encoding,
};
use crate::frame::FrameView;
use crate::text::{
    decimal, decimal_digits, is_digit, lemma_decimal_digits, lemma_number_text_of_decimal,
    number_text,
};
use crate::trusted::text_of;
use crate::wire::{
    crlf, first_crlf, lemma_parse_bounds, parse, parse_row, line_frame, plain, scan_crlf,
    scan_line, wire, wire_all, writable, LineEnd, Parsed, ParsedRow, CR, LF, MAX_BULK_LEN,
};

verus! {

/// Whether `text` holds neither a carriage return nor a line feed.
pub open spec fn unbroken(text: Seq<u8>) -> bool {
    forall|i: int| 0 <= i < text.len() ==> #[trigger] text[i] != CR && text[i] != LF
}

/// The bytes that encode a character other than a carriage return and a line
/// feed are neither.
proof fn lemma_scalar_unbroken(c: u32)
    requires
        c != 13,
        c != 10,
    ensures
        unbroken(encode_scalar(c)),
{
    let s = encode_scalar(c);
    if has_width_1_encoding(c) {
        assert((c & 0x7F) as u8 != 13 && (c & 0x7F) as u8 != 10) by (bit_vector)
            requires
                c <= 0x7F,
                c != 13,
                c != 10,
        ;
    } else {
        assert(forall|x: u8| #![auto] (0xC0u8 | x) >= 0x80) by (bit_vector);
        assert(forall|x: u8| #![auto] (0xE0u8 | x) >= 0x80) by (bit_vector);
        assert(forall|x: u8| #![auto] (0xF0u8 | x) >= 0x80) by (bit_vector);
        assert(forall|x: u8| #![auto] (0x80u8 | x) >= 0x80) by (bit_vector);
        assert forall|i: int| 0 <= i < s.len() implies #[trigger] s[i] >= 0x80 by {
            if has_width_2_encoding(c) {
            } else if has_width_3_encoding(c) {
            } else {
            }
        }
    }
}

/// A plain text is encoded without a carriage return and without a line
/// feed.
pub proof fn lemma_plain_is_unbroken(text: Seq<char>)
    requires
        plain(text),
    ensures
        unbroken(encode_utf8(text)),
    decreases text.len(),
{
    if text.len() > 0 {
        let first = encode_scalar(text[0] as u32);
        let later = encode_utf8(text.drop_first());
        assert(text[0] != '\r' && text[0] != '\n');
        assert('\r' as u32 == 13u32 && '\n' as u32 == 10u32);
        vstd::utf8::char_u32_cast(text[0], text[0] as u32);
        vstd::utf8::char_u32_cast('\r', 13u32);
        vstd::utf8::char_u32_cast('\n', 10u32);
        lemma_scalar_unbroken(text[0] as u32);
        assert(plain(text.drop_first())) by {
            assert forall|i: int| 0 <= i < text.drop_first().len() implies #[trigger] text.drop_first()[i]
                != '\r' && text.drop_first()[i] != '\n' by {
                assert(text.drop_first()[i] == text[i + 1]);
            }
        }
        lemma_plain_is_unbroken(text.drop_first());
        let bytes = encode_utf8(text);
        assert forall|i: int| 0 <= i < bytes.len() implies #[trigger] bytes[i] != CR && bytes[i]
            != LF by {
            if i < first.len() {
                assert(bytes[i] == first[i]);
            } else {
                assert(bytes[i] == later[i - first.len()]);
            }
        }
    }
}

/// The decimal text of an integer holds neither a carriage return nor a line
/// feed.
pub proof fn lemma_decimal_is_unbroken(n: int)
    ensures
        unbroken(decimal(n)),
{
    let text = decimal(n);
    if n < 0 {
        let digits = decimal_digits((-n) as nat);
        lemma_decimal_digits((-n) as nat);
        assert forall|i: int| 0 <= i < text.len() implies #[trigger] text[i] != CR && text[i] != LF by {
            if i > 0 {
                assert(is_digit(digits[i - 1]));
            }
        }
    } else {
        lemma_decimal_digits(n as nat);
        assert forall|i: int| 0 <= i < text.len() implies #[trigger] text[i] != CR && text[i] != LF by {
            assert(is_digit(text[i]));
        }
    }
}

/// A line that holds neither a carriage return nor a line feed ends at the
/// line break behind it.
proof fn lemma_line_found(text: Seq<u8>, rest: Seq<u8>, from: int)
    requires
        unbroken(text),
        0 <= from <= text.len(),
    ensures
        scan_line(text + crlf() + rest, from) == LineEnd::At(text.len() as int),
        scan_crlf(text + crlf() + rest, from) == Some(text.len() as int),
    decreases text.len() - from,
{
    let s = text + crlf() + rest;
    assert(s[text.len() as int] == CR);
    assert(s[text.len() as int + 1] == LF);
    if from < text.len() {
        assert(s[from] == text[from]);
        lemma_line_found(text, rest, from + 1);
    }
}

/// The bytes of a row of frames are those of its first frame and then those
/// of the others.
pub proof fn lemma_wire_all_first(frames: Seq<FrameView>)
    requires
        frames.len() > 0,
    ensures
        wire_all(frames) == wire(frames[0]) + wire_all(frames.drop_first()),
    decreases frames.len(),
{
    if frames.len() == 1 {
        assert(frames.drop_last() =~= Seq::<FrameView>::empty());
        assert(frames.drop_first() =~= Seq::<FrameView>::empty());
        assert(wire_all(frames) =~= wire(frames[0]) + wire_all(frames.drop_first()));
    } else {
        lemma_wire_all_first(frames.drop_last());
        assert(frames.drop_last().drop_first() =~= frames.drop_first().drop_last());
        assert(frames.drop_first().last() == frames.last());
        assert(frames.drop_last()[0] == frames[0]);
        assert(wire_all(frames) =~= wire(frames[0]) + wire_all(frames.drop_first()));
    }
}

/// A line that holds neither a carriage return nor a line feed is read as
/// the frame of its tag.
proof fn lemma_line_is_read(tag: u8, line: Seq<u8>, rest: Seq<u8>)
    requires
        tag == 43 || tag == 45 || tag == 58 || tag == 95,
        unbroken(line),
    ensures
        parse(seq![tag] + line + crlf() + rest) == line_frame(tag, line, line.len() + 3),
{
    let s = seq![tag] + line + crlf() + rest;
    lemma_line_found(line, rest, 0);
    assert(s[0] == tag);
    assert(s.skip(1) =~= line + crlf() + rest);
    assert(s.skip(1).take(line.len() as int) =~= line);
}

/// A header whose text holds neither a carriage return nor a line feed ends
/// at the line break behind it.
proof fn lemma_header_is_found(tag: u8, header: Seq<u8>, rest: Seq<u8>)
    requires
        unbroken(header),
    ensures
        first_crlf((seq![tag] + header + crlf() + rest).skip(1)) == Some(header.len() as int),
        (seq![tag] + header + crlf() + rest).skip(1).take(header.len() as int) == header,
        (seq![tag] + header + crlf() + rest).skip(1).skip(header.len() as int + 2) == rest,
{
    let s = seq![tag] + header + crlf() + rest;
    lemma_line_found(header, rest, 0);
    assert(s.skip(1) =~= header + crlf() + rest);
    assert(s.skip(1).take(header.len() as int) =~= header);
    assert(s.skip(1).skip(header.len() as int + 2) =~= rest);
}

/// A bulk string that is written is read back.
proof fn lemma_bulk_is_read(bytes: Seq<u8>, rest: Seq<u8>)
    requires
        bytes.len() <= MAX_BULK_LEN,
    ensures
        parse(wire(FrameView::Bulk(bytes)) + rest) == (Parsed::Complete {
            frame: FrameView::Bulk(bytes),
            len: wire(FrameView::Bulk(bytes)).len(),
        }),
{
    let header = decimal(bytes.len() as int);
    let tail = bytes + crlf() + rest;
    let s = wire(FrameView::Bulk(bytes)) + rest;
    lemma_decimal_is_unbroken(bytes.len() as int);
    lemma_header_is_found(36, header, tail);
    assert(s =~= seq![36u8] + header + crlf() + tail);
    assert(s[0] == 36);
    lemma_number_text_of_decimal(bytes.len() as int);
    assert(tail[bytes.len() as int] == CR);
    assert(tail[bytes.len() as int + 1] == LF);
    assert(tail.take(bytes.len() as int) =~= bytes);
}

/// The null that is written is read back.
proof fn lemma_null_is_read(rest: Seq<u8>)
    ensures
        parse(wire(FrameView::Null) + rest) == (Parsed::Complete { frame: FrameView::Null, len: 5 }),
{
    let header = seq![45u8, 49u8];
    let s = wire(FrameView::Null) + rest;
    assert(unbroken(header));
    lemma_header_is_found(36, header, rest);
    assert(s =~= seq![36u8] + header + crlf() + rest);
    assert(s[0] == 36);
    assert(number_text(header) == Some(-1int)) by {
        let body = header.subrange(1, 2);
        assert(body =~= seq![49u8]);
        assert(body.drop_last() =~= Seq::<u8>::empty());
        assert(crate::text::digits_value(body.drop_last()) == 0);
        assert(crate::text::digits_value(body) == 1);
    }
}

/// A text that is written is read back.
proof fn lemma_text_is_read(text: Seq<char>)
    ensures
        text_of(encode_utf8(text)) == text,
{
    encode_utf8_valid_utf8(text);
    encode_utf8_decode_utf8(text);
}

/// A frame that is written is read back as it was, whatever bytes follow it:
/// reading at the front of its bytes yields the frame, and takes up exactly
/// its bytes.
pub proof fn lemma_written_is_read(frame: FrameView, rest: Seq<u8>)
    requires
        writable(frame),
    ensures
        parse(wire(frame) + rest) == (Parsed::Complete { frame, len: wire(frame).len() }),
    decreases frame,
{
    match frame {
        FrameView::Simple(text) => {
            lemma_plain_is_unbroken(text);
            lemma_line_is_read(43, encode_utf8(text), rest);
            lemma_text_is_read(text);
        },
        FrameView::Error(text) => {
            lemma_plain_is_unbroken(text);
            lemma_line_is_read(45, encode_utf8(text), rest);
            lemma_text_is_read(text);
        },
        FrameView::Integer(n) => {
            lemma_decimal_is_unbroken(n as int);
            lemma_line_is_read(58, decimal(n as int), rest);
            lemma_number_text_of_decimal(n as int);
        },
        FrameView::Bulk(bytes) => {
            lemma_bulk_is_read(bytes, rest);
        },
        FrameView::Null => {
            lemma_null_is_read(rest);
        },
        FrameView::Array(items) => {
            let header = decimal(items.len() as int);
            let tail = wire_all(items) + rest;
            let s = wire(frame) + rest;
            lemma_decimal_is_unbroken(items.len() as int);
            lemma_header_is_found(42, header, tail);
            assert(s =~= seq![42u8] + header + crlf() + tail);
            assert(s[0] == 42);
            lemma_number_text_of_decimal(items.len() as int);
            lemma_row_written_is_read(items, rest);
        },
    }
}

/// A row of frames that is written is read back as it was.
pub proof fn lemma_row_written_is_read(items: Seq<FrameView>, rest: Seq<u8>)
    requires
        forall|i: int| 0 <= i < items.len() ==> writable(#[trigger] items[i]),
    ensures
        parse_row(wire_all(items) + rest, items.len()) == (ParsedRow::Complete {
            frames: items,
            len: wire_all(items).len(),
        }),
    decreases items,
{
    if items.len() == 0 {
        assert(wire_all(items) =~= Seq::<u8>::empty());
        assert(items =~= Seq::<FrameView>::empty());
    } else {
        let first = items[0];
        let later = items.drop_first();
        lemma_wire_all_first(items);
        let s = wire_all(items) + rest;
        assert(s =~= wire(first) + (wire_all(later) + rest));
        lemma_written_is_read(first, wire_all(later) + rest);
        lemma_parse_bounds(s);
        assert(s.skip(wire(first).len() as int) =~= wire_all(later) + rest);
        assert forall|i: int| 0 <= i < later.len() implies writable(#[trigger] later[i]) by {
            assert(later[i] == items[i + 1]);
        }
        lemma_row_written_is_read(later, rest);
        assert(seq![first] + later =~= items);
        assert(later.len() == items.len() - 1);
        assert(parse(s) == (Parsed::Complete { frame: first, len: wire(first).len() }));
        assert(parse_row(s.skip(wire(first).len() as int), later.len()) == (ParsedRow::Complete {
            frames: later,
            len: wire_all(later).len(),
        }));
        assert(wire_all(items).len() == wire(first).len() + wire_all(later).len());
    }
}

} // verus!
