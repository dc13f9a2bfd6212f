//! The RESP frame: its value model, its wire encoding, and its decoding from
//! a byte buffer that may hold only part of a frame.

use vstd::prelude::*;
use vstd::utf8::*;
use crate::decimal::{
    int_decimal, lemma_int_decimal_no_newline, lemma_nat_digits, lemma_parse_int_decimal,
    lemma_parse_nat_decimal, nat_digits, parse_i64, push_i64_decimal, push_u64_digits, spec_parse_i64,
};
use crate::text::{str_from_utf8, string_from_utf8};

verus! {

/// One RESP value. `Incomplete` is what decoding reports when the buffer
/// ends before the frame does.
#[derive(PartialEq, Debug, Hash, Eq)]
pub enum Frame {
    Integer(i64),
    SimpleString(String),
    BulkString(Vec<u8>),
    Error(String),
    Null,
    Array(Vec<Frame>),
    Incomplete,
}

/// The mathematical value of a [`Frame`]: strings as characters, bytes as
/// sequences, arrays as sequences of values.
pub enum FrameV {
    Integer(i64),
    SimpleString(Seq<char>),
    BulkString(Seq<u8>),
    Error(Seq<char>),
    Null,
    Array(Seq<FrameV>),
    Incomplete,
}

/// The value of a frame.
pub open spec fn frame_view(f: Frame) -> FrameV
    decreases f,
{
    match f {
        Frame::Integer(i) => FrameV::Integer(i),
        Frame::SimpleString(s) => FrameV::SimpleString(s@),
        Frame::BulkString(b) => FrameV::BulkString(b@),
        Frame::Error(s) => FrameV::Error(s@),
        Frame::Null => FrameV::Null,
        Frame::Array(fs) => FrameV::Array(frames_view(fs@)),
        Frame::Incomplete => FrameV::Incomplete,
    }
}

/// The values of a sequence of frames, element by element.
pub open spec fn frames_view(fs: Seq<Frame>) -> Seq<FrameV>
    decreases fs,
{
    if fs.len() == 0 {
        Seq::empty()
    } else {
        seq![frame_view(fs[0])] + frames_view(fs.drop_first())
    }
}

impl View for Frame {
    type V = FrameV;

    open spec fn view(&self) -> FrameV {
        frame_view(*self)
    }
}

/// `frames_view` maps each element to its value.
pub proof fn lemma_frames_view(fs: Seq<Frame>)
    ensures
        frames_view(fs).len() == fs.len(),
        forall|i: int| 0 <= i < fs.len() ==> #[trigger] frames_view(fs)[i] == frame_view(fs[i]),
    decreases fs.len(),
{
    if fs.len() > 0 {
        lemma_frames_view(fs.drop_first());
        assert forall|i: int| 0 <= i < fs.len() implies #[trigger] frames_view(fs)[i] == frame_view(
            fs[i],
        ) by {
            if i > 0 {
                assert(fs.drop_first()[i - 1] == fs[i]);
            }
        }
    }
}

/// Pushing a frame pushes its value.
pub proof fn lemma_frames_view_push(fs: Seq<Frame>, f: Frame)
    ensures
        frames_view(fs.push(f)) == frames_view(fs).push(frame_view(f)),
{
    lemma_frames_view(fs);
    lemma_frames_view(fs.push(f));
    assert(frames_view(fs.push(f)) =~= frames_view(fs).push(frame_view(f)));
}

/// A frame that holds no `Incomplete` marker anywhere; only such frames can
/// be encoded.
pub open spec fn no_incomplete(f: FrameV) -> bool
    decreases f,
{
    match f {
        FrameV::Incomplete => false,
        FrameV::Array(fs) => all_no_incomplete(fs),
        _ => true,
    }
}

/// Every frame of the sequence holds no `Incomplete` marker.
pub open spec fn all_no_incomplete(fs: Seq<FrameV>) -> bool
    decreases fs,
{
    fs.len() == 0 || (no_incomplete(fs[0]) && all_no_incomplete(fs.drop_first()))
}

/// `all_no_incomplete` holds element by element.
pub proof fn lemma_all_no_incomplete(fs: Seq<FrameV>)
    ensures
        all_no_incomplete(fs) <==> forall|i: int| 0 <= i < fs.len() ==> #[trigger] no_incomplete(fs[i]),
    decreases fs.len(),
{
    if fs.len() > 0 {
        lemma_all_no_incomplete(fs.drop_first());
        if forall|i: int| 0 <= i < fs.len() ==> #[trigger] no_incomplete(fs[i]) {
            assert(no_incomplete(fs[0]));
            assert forall|i: int| 0 <= i < fs.drop_first().len() implies #[trigger] no_incomplete(
                fs.drop_first()[i],
            ) by {
                assert(no_incomplete(fs[i + 1]));
            }
        }
        if all_no_incomplete(fs) {
            assert forall|i: int| 0 <= i < fs.len() implies #[trigger] no_incomplete(fs[i]) by {
                if i > 0 {
                    assert(fs.drop_first()[i - 1] == fs[i]);
                }
            }
        }
    }
}

/// The line terminator.
pub open spec fn crlf() -> Seq<u8> {
    seq![13u8, 10u8]
}

/// The wire bytes of a frame.
pub open spec fn spec_encode(f: FrameV) -> Seq<u8>
    decreases f,
{
    match f {
        FrameV::Integer(i) => seq![58u8] + int_decimal(i as int) + crlf(),
        FrameV::SimpleString(s) => seq![43u8] + encode_utf8(s) + crlf(),
        FrameV::BulkString(b) => seq![36u8] + nat_digits(b.len()) + crlf() + b + crlf(),
        FrameV::Error(s) => seq![45u8] + encode_utf8(s) + crlf(),
        FrameV::Null => seq![36u8, 45u8, 49u8, 13u8, 10u8],
        FrameV::Array(fs) => seq![42u8] + nat_digits(fs.len()) + crlf() + encode_all(fs),
        FrameV::Incomplete => Seq::empty(),
    }
}

/// The wire bytes of a sequence of frames, one after the other.
pub open spec fn encode_all(fs: Seq<FrameV>) -> Seq<u8>
    decreases fs,
{
    if fs.len() == 0 {
        Seq::empty()
    } else {
        spec_encode(fs[0]) + encode_all(fs.drop_first())
    }
}

/// Encoding one more frame appends its bytes.
pub proof fn lemma_encode_all_push(fs: Seq<FrameV>, f: FrameV)
    ensures
        encode_all(fs.push(f)) == encode_all(fs) + spec_encode(f),
    decreases fs.len(),
{
    if fs.len() == 0 {
        assert(fs.push(f).drop_first() =~= Seq::<FrameV>::empty());
        assert(fs.push(f)[0] == f);
        assert(encode_all(fs.push(f)) == spec_encode(f) + encode_all(Seq::<FrameV>::empty()));
        assert(encode_all(fs.push(f)) =~= encode_all(fs) + spec_encode(f));
    } else {
        lemma_encode_all_push(fs.drop_first(), f);
        assert(fs.push(f).drop_first() =~= fs.drop_first().push(f));
        assert(fs.push(f)[0] == fs[0]);
        assert(encode_all(fs.push(f)) == spec_encode(fs[0]) + encode_all(fs.drop_first().push(f)));
        assert(encode_all(fs) == spec_encode(fs[0]) + encode_all(fs.drop_first()));
        assert(encode_all(fs.push(f)) =~= encode_all(fs) + spec_encode(f));
    }
}


/// The index of the first line feed in `s` at or after `from`.
pub open spec fn find_newline(s: Seq<u8>, from: int) -> Option<int>
    decreases s.len() - from,
{
    if from >= s.len() {
        None
    } else if s[from] == 10 {
        Some(from)
    } else {
        find_newline(s, from + 1)
    }
}

/// One header line: the bytes before its terminator, and how many bytes the
/// line takes up. The line runs to the first line feed; its last two bytes
/// (taken to be `\r\n`) are dropped. `None` when no line feed follows.
pub open spec fn read_line(s: Seq<u8>) -> Option<(Seq<u8>, int)> {
    match find_newline(s, 0) {
        None => None,
        Some(i) => Some((s.take(if i >= 1 { i - 1 } else { 0 }), i + 1)),
    }
}

/// The elements of an array still to be decoded: `Some(Some((frames, end)))`
/// on success, `Some(None)` when an element is incomplete, and `None` where
/// decoding panics.
pub type ElemsOutcome = Option<Option<(Seq<FrameV>, int)>>;

/// Decodes `k` more array elements from `s`, the bytes after the array
/// header, starting at offset `cursor`. Each element starts where the one
/// before it said it ended; starting past the end of the buffer panics.
pub open spec fn decode_elems(s: Seq<u8>, cursor: int, k: int) -> ElemsOutcome
    decreases s.len(), k,
{
    if k <= 0 {
        Some(Some((Seq::empty(), cursor)))
    } else if cursor < 0 || cursor > s.len() {
        None
    } else {
        match spec_decode(s.skip(cursor)) {
            None => None,
            Some((f, c)) => if f is Incomplete {
                Some(None)
            } else {
                prepend_elems(seq![f], decode_elems(s, cursor + c, k - 1))
            },
        }
    }
}

/// Puts `pre` in front of the elements of a successful outcome.
pub open spec fn prepend_elems(pre: Seq<FrameV>, r: ElemsOutcome) -> ElemsOutcome {
    match r {
        Some(Some((fs, e))) => Some(Some((pre + fs, e))),
        other => other,
    }
}

/// The array that a header line of `n` bytes and the decoded elements make.
pub open spec fn array_outcome(r: ElemsOutcome, n: int) -> Option<(FrameV, int)> {
    match r {
        None => None,
        Some(None) => Some((FrameV::Incomplete, 0)),
        Some(Some((elems, end))) => Some((FrameV::Array(elems), end + n + 1)),
    }
}

/// The message of the error frame for a bulk string whose length is not a number.
pub open spec fn invalid_length_text() -> Seq<char> {
    "invalid length"@
}

/// The message of the error frame for an unknown type byte.
pub open spec fn invalid_prefix_text() -> Seq<char> {
    "invalid prefix"@
}

/// What decoding the start of `s` yields: the frame and the number of bytes
/// it consumed, or `None` where decoding panics (text that is not UTF-8, an
/// integer or array length that does not parse, or a negative bulk length
/// other than -1). A bulk string is complete once its data and the two
/// terminator bytes after it have arrived.
pub open spec fn spec_decode(s: Seq<u8>) -> Option<(FrameV, int)>
    decreases s.len(), 0int,
{
    if s.len() == 0 {
        Some((FrameV::Incomplete, 0))
    } else {
        let prefix = s[0];
        let rest = s.drop_first();
        if prefix == 43 || prefix == 45 {
            match read_line(rest) {
                None => Some((FrameV::Incomplete, 0)),
                Some((content, n)) => if valid_utf8(content) {
                    let text = decode_utf8(content);
                    Some(
                        (
                            if prefix == 43 {
                                FrameV::SimpleString(text)
                            } else {
                                FrameV::Error(text)
                            },
                            n + 1,
                        ),
                    )
                } else {
                    None
                },
            }
        } else if prefix == 58 {
            match read_line(rest) {
                None => Some((FrameV::Incomplete, 0)),
                Some((content, n)) => if valid_utf8(content) {
                    match spec_parse_i64(content) {
                        None => None,
                        Some(v) => Some((FrameV::Integer(v), n + 1)),
                    }
                } else {
                    None
                },
            }
        } else if prefix == 36 {
            match read_line(rest) {
                None => Some((FrameV::Incomplete, 0)),
                Some((content, n)) => if valid_utf8(content) {
                    match spec_parse_i64(content) {
                        None => Some((FrameV::Error(invalid_length_text()), 0)),
                        Some(count) => if count == -1 {
                            Some((FrameV::Null, 5))
                        } else if count < -1 {
                            None
                        } else {
                            let data = rest.skip(n);
                            if data.len() < count + 2 {
                                Some((FrameV::Incomplete, 0))
                            } else {
                                Some((FrameV::BulkString(data.take(count as int)), n + count + 3))
                            }
                        },
                    }
                } else {
                    None
                },
            }
        } else if prefix == 42 {
            match read_line(rest) {
                None => Some((FrameV::Incomplete, 0)),
                Some((content, n)) => if valid_utf8(content) {
                    match spec_parse_i64(content) {
                        None => None,
                        Some(count) => if count == -1 {
                            Some((FrameV::Null, 5))
                        } else if 0 <= n <= rest.len() {
                            array_outcome(decode_elems(rest.skip(n), 0, count as int), n)
                        } else {
                            None
                        },
                    }
                } else {
                    None
                },
            }
        } else {
            Some((FrameV::Error(invalid_prefix_text()), 0))
        }
    }
}

/// Where `find_newline` stops.
pub proof fn lemma_find_newline(s: Seq<u8>, from: int)
    requires
        0 <= from,
    ensures
        match find_newline(s, from) {
            Some(i) => from <= i < s.len() && s[i] == 10 && forall|j: int|
                from <= j < i ==> s[j] != 10,
            None => forall|j: int| from <= j < s.len() ==> s[j] != 10,
        },
    decreases s.len() - from,
{
    if from < s.len() && s[from] != 10 {
        lemma_find_newline(s, from + 1);
    }
}



/// No character of `s` is a line feed.
pub open spec fn no_newline_char(s: Seq<char>) -> bool {
    forall|i: int| 0 <= i < s.len() ==> s[i] != '\n'
}

/// No byte of `s` is a line feed.
pub open spec fn no_newline_byte(s: Seq<u8>) -> bool {
    forall|i: int| 0 <= i < s.len() ==> s[i] != 10u8
}

/// A frame that the wire format carries faithfully: no `Incomplete` marker,
/// no line feed inside a simple string or an error, and every length small
/// enough for the signed 64-bit header that announces it.
pub open spec fn wire_safe(f: FrameV) -> bool
    decreases f,
{
    match f {
        FrameV::SimpleString(s) => no_newline_char(s),
        FrameV::Error(s) => no_newline_char(s),
        FrameV::BulkString(b) => b.len() <= i64::MAX,
        FrameV::Array(fs) => fs.len() <= i64::MAX && all_wire_safe(fs),
        FrameV::Incomplete => false,
        _ => true,
    }
}

/// Every frame of the sequence is wire-safe.
pub open spec fn all_wire_safe(fs: Seq<FrameV>) -> bool
    decreases fs,
{
    fs.len() == 0 || (wire_safe(fs[0]) && all_wire_safe(fs.drop_first()))
}

/// A wire-safe frame holds no `Incomplete` marker, so it can be encoded.
pub proof fn lemma_wire_safe_encodable(f: FrameV)
    requires
        wire_safe(f),
    ensures
        no_incomplete(f),
    decreases f,
{
    if let FrameV::Array(fs) = f {
        lemma_all_wire_safe_encodable(fs);
    }
}

proof fn lemma_all_wire_safe_encodable(fs: Seq<FrameV>)
    requires
        all_wire_safe(fs),
    ensures
        all_no_incomplete(fs),
    decreases fs,
{
    if fs.len() > 0 {
        lemma_wire_safe_encodable(fs[0]);
        lemma_all_wire_safe_encodable(fs.drop_first());
    }
}

/// `find_newline` finds the first line feed.
proof fn lemma_find_newline_at(s: Seq<u8>, from: int, i: int)
    requires
        0 <= from <= i < s.len(),
        s[i] == 10,
        forall|j: int| from <= j < i ==> s[j] != 10,
    ensures
        find_newline(s, from) == Some(i),
    decreases i - from,
{
    if from < i {
        lemma_find_newline_at(s, from + 1, i);
    }
}

/// A line made of `x` and the terminator reads back as `x`.
proof fn lemma_read_line(x: Seq<u8>, rest: Seq<u8>)
    requires
        no_newline_byte(x),
    ensures
        read_line(x + crlf() + rest) == Some((x, x.len() + 2int)),
{
    let s = x + crlf() + rest;
    assert forall|j: int| 0 <= j < x.len() + 1 implies s[j] != 10 by {
        if j < x.len() {
            assert(s[j] == x[j]);
        }
    }
    lemma_find_newline_at(s, 0, x.len() + 1int);
    assert(s.take(x.len() as int) =~= x);
}

proof fn lemma_high_bits(x: u8)
    by (bit_vector)
    ensures
        (0x80u8 | x) != 10u8,
        (0xC0u8 | x) != 10u8,
        (0xE0u8 | x) != 10u8,
        (0xF0u8 | x) != 10u8,
{
}

proof fn lemma_low_byte(c: u32)
    by (bit_vector)
    requires
        c <= 0x7f,
        c != 10,
    ensures
        ((c & 0x7F) as u8) != 10u8,
{
}

/// The UTF-8 bytes of a character other than a line feed hold no line feed.
proof fn lemma_encode_scalar_no_newline(c: char)
    requires
        c != '\n',
    ensures
        no_newline_byte(encode_scalar(c as u32)),
{
    let v = c as u32;
    assert(v != 10);
    if has_width_1_encoding(v) {
        lemma_low_byte(v);
    } else if has_width_2_encoding(v) {
        lemma_high_bits(((v >> 6) & 0x1F) as u8);
        lemma_high_bits((v & 0x3F) as u8);
    } else if has_width_3_encoding(v) {
        lemma_high_bits(((v >> 12) & 0x0F) as u8);
        lemma_high_bits(((v >> 6) & 0x3F) as u8);
        lemma_high_bits((v & 0x3F) as u8);
    } else {
        lemma_high_bits(((v >> 18) & 0x7) as u8);
        lemma_high_bits(((v >> 12) & 0x3F) as u8);
        lemma_high_bits(((v >> 6) & 0x3F) as u8);
        lemma_high_bits((v & 0x3F) as u8);
    }
}

/// Text without line feeds encodes to bytes without line feeds.
proof fn lemma_encode_utf8_no_newline(s: Seq<char>)
    requires
        no_newline_char(s),
    ensures
        no_newline_byte(encode_utf8(s)),
    decreases s.len(),
{
    if s.len() > 0 {
        lemma_encode_scalar_no_newline(s[0]);
        assert(no_newline_char(s.drop_first())) by {
            assert forall|i: int| 0 <= i < s.drop_first().len() implies s.drop_first()[i] != '\n' by {
                assert(s.drop_first()[i] == s[i + 1]);
            }
        }
        lemma_encode_utf8_no_newline(s.drop_first());
        let a = encode_scalar(s[0] as u32);
        let b = encode_utf8(s.drop_first());
        assert forall|i: int| 0 <= i < (a + b).len() implies (a + b)[i] != 10u8 by {
            if i < a.len() {
                assert((a + b)[i] == a[i]);
            } else {
                assert((a + b)[i] == b[i - a.len()]);
            }
        }
    }
}

/// Decimal text is valid UTF-8: every byte is ASCII.
pub(crate) proof fn lemma_decimal_valid_utf8(i: int)
    ensures
        valid_utf8(int_decimal(i)),
        no_newline_byte(int_decimal(i)),
{
    let d = int_decimal(i);
    let n = if i < 0 { (-i) as nat } else { i as nat };
    lemma_nat_digits(n);
    lemma_int_decimal_no_newline(i);
    assert forall|k: int| 0 <= 0 <= k < d.len() <= d.len() implies #[trigger] is_leading_byte_width_1(
        d[k],
    ) by {
        if i < 0 && k > 0 {
            assert(d[k] == nat_digits(n)[k - 1]);
        } else if i >= 0 {
            assert(d[k] == nat_digits(n)[k]);
        }
    }
    assert(d.subrange(0, 0) =~= Seq::<u8>::empty());
    assert(partial_valid_utf8(d, 0));
    partial_valid_utf8_extend_ascii_block(d, 0, d.len() as int);
    assert(d.subrange(0, d.len() as int) =~= d);
}

/// Decoding the encoding of a wire-safe frame, followed by any bytes at
/// all, gives back the frame and reports exactly the encoding's length as
/// consumed.
pub proof fn lemma_decode_encode(f: FrameV, rest: Seq<u8>)
    requires
        wire_safe(f),
    ensures
        spec_decode(spec_encode(f) + rest) == Some((f, spec_encode(f).len() as int)),
    decreases f,
{
    match f {
        FrameV::Integer(i) => lemma_decode_integer(i, rest),
        FrameV::SimpleString(t) => lemma_decode_text(f, t, rest),
        FrameV::Error(t) => lemma_decode_text(f, t, rest),
        FrameV::BulkString(b) => lemma_decode_bulk(b, rest),
        FrameV::Null => lemma_decode_null(rest),
        FrameV::Array(fs) => {
            let d = nat_digits(fs.len());
            let tail = encode_all(fs) + rest;
            lemma_decode_elems_encoded(Seq::empty(), fs, rest);
            assert(Seq::<u8>::empty() + encode_all(fs) + rest =~= tail);
            lemma_decode_array_header(fs, rest);
        },
        FrameV::Incomplete => {},
    }
}

proof fn lemma_decode_integer(i: i64, rest: Seq<u8>)
    ensures
        spec_decode(spec_encode(FrameV::Integer(i)) + rest) == Some(
            (FrameV::Integer(i), spec_encode(FrameV::Integer(i)).len() as int),
        ),
{
    let s = spec_encode(FrameV::Integer(i)) + rest;
    let d = int_decimal(i as int);
    lemma_decimal_valid_utf8(i as int);
    lemma_parse_int_decimal(i);
    assert(s.drop_first() =~= d + crlf() + rest);
    lemma_read_line(d, rest);
}

proof fn lemma_decode_text(f: FrameV, t: Seq<char>, rest: Seq<u8>)
    requires
        f == FrameV::SimpleString(t) || f == FrameV::Error(t),
        no_newline_char(t),
    ensures
        spec_decode(spec_encode(f) + rest) == Some((f, spec_encode(f).len() as int)),
{
    let s = spec_encode(f) + rest;
    let d = encode_utf8(t);
    lemma_encode_utf8_no_newline(t);
    encode_utf8_valid_utf8(t);
    encode_utf8_decode_utf8(t);
    assert(s.drop_first() =~= d + crlf() + rest);
    lemma_read_line(d, rest);
}

proof fn lemma_decode_bulk(b: Seq<u8>, rest: Seq<u8>)
    requires
        b.len() <= i64::MAX,
    ensures
        spec_decode(spec_encode(FrameV::BulkString(b)) + rest) == Some(
            (FrameV::BulkString(b), spec_encode(FrameV::BulkString(b)).len() as int),
        ),
{
    let s = spec_encode(FrameV::BulkString(b)) + rest;
    let d = nat_digits(b.len());
    lemma_decimal_valid_utf8(b.len() as int);
    lemma_parse_nat_decimal(b.len());
    let tail = b + crlf() + rest;
    assert(s.drop_first() =~= d + crlf() + tail);
    lemma_read_line(d, tail);
    assert(s.drop_first().skip(d.len() + 2int) =~= tail);
    assert(tail.take(b.len() as int) =~= b);
}

proof fn lemma_decode_null(rest: Seq<u8>)
    ensures
        spec_decode(spec_encode(FrameV::Null) + rest) == Some((FrameV::Null, 5int)),
{
    let s = spec_encode(FrameV::Null) + rest;
    let d = seq![45u8, 49u8];
    assert(s.drop_first() =~= d + crlf() + rest);
    lemma_read_line(d, rest);
    crate::decimal::lemma_digit_one();
    assert(d.skip(1) =~= seq![49u8]);
    assert(d.subrange(0, 0) =~= Seq::<u8>::empty());
    assert(partial_valid_utf8(d, 0));
    partial_valid_utf8_extend_ascii_block(d, 0, 2);
    assert(d.subrange(0, 2) =~= d);
}

proof fn lemma_decode_array_header(fs: Seq<FrameV>, rest: Seq<u8>)
    requires
        fs.len() <= i64::MAX,
        decode_elems(encode_all(fs) + rest, 0, fs.len() as int) == Some(
            Some((fs, encode_all(fs).len() as int)),
        ),
    ensures
        spec_decode(spec_encode(FrameV::Array(fs)) + rest) == Some(
            (FrameV::Array(fs), spec_encode(FrameV::Array(fs)).len() as int),
        ),
{
    let s = spec_encode(FrameV::Array(fs)) + rest;
    let d = nat_digits(fs.len());
    lemma_decimal_valid_utf8(fs.len() as int);
    lemma_parse_nat_decimal(fs.len());
    let tail = encode_all(fs) + rest;
    assert(s.drop_first() =~= d + crlf() + tail);
    lemma_read_line(d, tail);
    assert(s.drop_first().skip(d.len() + 2int) =~= tail);
}

/// Decoding the encodings of wire-safe frames one after another gives them
/// back in order.
proof fn lemma_decode_elems_encoded(pre: Seq<u8>, fs: Seq<FrameV>, rest: Seq<u8>)
    requires
        all_wire_safe(fs),
    ensures
        decode_elems(pre + encode_all(fs) + rest, pre.len() as int, fs.len() as int) == Some(
            Some((fs, pre.len() + encode_all(fs).len() as int)),
        ),
    decreases fs,
{
    let s = pre + encode_all(fs) + rest;
    if fs.len() == 0 {
        assert(fs =~= Seq::<FrameV>::empty());
    } else {
        let f0 = fs[0];
        let others = fs.drop_first();
        let after = encode_all(others) + rest;
        assert(encode_all(fs) == spec_encode(f0) + encode_all(others));
        lemma_decode_encode(f0, after);
        assert(s.skip(pre.len() as int) =~= spec_encode(f0) + after);
        let pre2 = pre + spec_encode(f0);
        lemma_decode_elems_encoded(pre2, others, rest);
        assert(pre2 + encode_all(others) + rest =~= s);
        assert(seq![f0] + others =~= fs);
        assert(wire_safe(f0));
        assert(!(f0 is Incomplete));
        assert(spec_decode(s.skip(pre.len() as int)) == Some((f0, spec_encode(f0).len() as int)));
        assert(0 <= pre.len() <= s.len());
        assert(decode_elems(s, pre.len() as int, fs.len() as int) == prepend_elems(
            seq![f0],
            decode_elems(s, pre.len() + spec_encode(f0).len() as int, fs.len() - 1),
        ));
    }
}


/// Bytes without a line feed hold no complete line.
proof fn lemma_no_line(s: Seq<u8>)
    requires
        no_newline_byte(s),
    ensures
        read_line(s) is None,
{
    lemma_find_newline(s, 0);
}

/// A buffer that stops before the line feed of a frame's header line is
/// incomplete.
proof fn lemma_prefix_in_header(p: u8, x: Seq<u8>, t: Seq<u8>, m: int)
    requires
        p == 43 || p == 45 || p == 58 || p == 36 || p == 42,
        no_newline_byte(x),
        0 <= m <= x.len() + 2,
    ensures
        spec_decode((seq![p] + x + crlf() + t).take(m)) == Some((FrameV::Incomplete, 0int)),
{
    let whole = seq![p] + x + crlf() + t;
    let q = whole.take(m);
    if m > 0 {
        assert(q[0] == p);
        let line = q.drop_first();
        assert forall|j: int| 0 <= j < line.len() implies line[j] != 10u8 by {
            assert(line[j] == whole[j + 1]);
            if j < x.len() {
                assert(whole[j + 1] == x[j]);
            } else {
                assert(j == x.len());
                assert(whole[j + 1] == 13u8);
            }
        }
        lemma_no_line(line);
    }
}

/// A buffer that holds a bulk string's header but not all of its data and
/// terminator is incomplete.
proof fn lemma_prefix_bulk_body(b: Seq<u8>, m: int)
    requires
        b.len() <= i64::MAX,
        nat_digits(b.len()).len() + 2 < m < spec_encode(FrameV::BulkString(b)).len(),
    ensures
        spec_decode(spec_encode(FrameV::BulkString(b)).take(m)) == Some(
            (FrameV::Incomplete, 0int),
        ),
{
    let whole = spec_encode(FrameV::BulkString(b));
    let q = whole.take(m);
    let d = nat_digits(b.len());
    lemma_decimal_valid_utf8(b.len() as int);
    lemma_parse_nat_decimal(b.len());
    let k = m - 1 - (d.len() + 2);
    let tail = (b + crlf()).take(k);
    assert(q.drop_first() =~= d + crlf() + tail);
    lemma_read_line(d, tail);
    assert(q.drop_first().skip(d.len() + 2int) =~= tail);
}

/// A buffer that holds an array's header but not all of its elements is
/// incomplete.
proof fn lemma_prefix_array_body(fs: Seq<FrameV>, m: int)
    requires
        fs.len() <= i64::MAX,
        all_wire_safe(fs),
        nat_digits(fs.len()).len() + 2 < m < spec_encode(FrameV::Array(fs)).len(),
    ensures
        spec_decode(spec_encode(FrameV::Array(fs)).take(m)) == Some((FrameV::Incomplete, 0int)),
    decreases fs, 1int,
{
    let whole = spec_encode(FrameV::Array(fs));
    let q = whole.take(m);
    let d = nat_digits(fs.len());
    lemma_decimal_valid_utf8(fs.len() as int);
    lemma_parse_nat_decimal(fs.len());
    let k = m - 1 - (d.len() + 2);
    let tail = encode_all(fs).take(k);
    assert(q.drop_first() =~= d + crlf() + tail);
    lemma_read_line(d, tail);
    assert(q.drop_first().skip(d.len() + 2int) =~= tail);
    lemma_decode_elems_prefix(Seq::empty(), fs, k);
    assert(Seq::<u8>::empty() + tail =~= tail);
}

/// Every strict prefix of the encoding of a wire-safe frame decodes as
/// `Incomplete`, consuming nothing: a reader that has only part of a frame
/// is told to wait for more bytes.
pub proof fn lemma_decode_prefix(f: FrameV, m: int)
    requires
        wire_safe(f),
        0 <= m < spec_encode(f).len(),
    ensures
        spec_decode(spec_encode(f).take(m)) == Some((FrameV::Incomplete, 0int)),
    decreases f, 0int,
{
    let whole = spec_encode(f);
    match f {
        FrameV::Integer(i) => {
            let d = int_decimal(i as int);
            lemma_decimal_valid_utf8(i as int);
            assert(whole =~= seq![58u8] + d + crlf() + Seq::<u8>::empty());
            lemma_prefix_in_header(58u8, d, Seq::empty(), m);
        },
        FrameV::SimpleString(t) => {
            let d = encode_utf8(t);
            lemma_encode_utf8_no_newline(t);
            assert(whole =~= seq![43u8] + d + crlf() + Seq::<u8>::empty());
            lemma_prefix_in_header(43u8, d, Seq::empty(), m);
        },
        FrameV::Error(t) => {
            let d = encode_utf8(t);
            lemma_encode_utf8_no_newline(t);
            assert(whole =~= seq![45u8] + d + crlf() + Seq::<u8>::empty());
            lemma_prefix_in_header(45u8, d, Seq::empty(), m);
        },
        FrameV::Null => {
            let d = seq![45u8, 49u8];
            assert(whole =~= seq![36u8] + d + crlf() + Seq::<u8>::empty());
            lemma_prefix_in_header(36u8, d, Seq::empty(), m);
        },
        FrameV::BulkString(b) => {
            let d = nat_digits(b.len());
            lemma_decimal_valid_utf8(b.len() as int);
            if m <= d.len() + 2 {
                assert(whole =~= seq![36u8] + d + crlf() + (b + crlf()));
                lemma_prefix_in_header(36u8, d, b + crlf(), m);
            } else {
                lemma_prefix_bulk_body(b, m);
            }
        },
        FrameV::Array(fs) => {
            let d = nat_digits(fs.len());
            lemma_decimal_valid_utf8(fs.len() as int);
            if m <= d.len() + 2 {
                assert(whole =~= seq![42u8] + d + crlf() + encode_all(fs));
                lemma_prefix_in_header(42u8, d, encode_all(fs), m);
            } else {
                lemma_prefix_array_body(fs, m);
            }
        },
        FrameV::Incomplete => {},
    }
}

/// Decoding elements from a strict prefix of their encodings ends at an
/// incomplete element.
proof fn lemma_decode_elems_prefix(pre: Seq<u8>, fs: Seq<FrameV>, m: int)
    requires
        all_wire_safe(fs),
        0 <= m < encode_all(fs).len(),
    ensures
        decode_elems(pre + encode_all(fs).take(m), pre.len() as int, fs.len() as int) == Some(
            None::<(Seq<FrameV>, int)>,
        ),
    decreases fs, 0int,
{
    let s = pre + encode_all(fs).take(m);
    let f0 = fs[0];
    let others = fs.drop_first();
    let e0 = spec_encode(f0);
    assert(encode_all(fs) == e0 + encode_all(others));
    assert(wire_safe(f0));
    assert(s.skip(pre.len() as int) =~= encode_all(fs).take(m));
    if m < e0.len() {
        assert(encode_all(fs).take(m) =~= e0.take(m));
        lemma_decode_prefix(f0, m);
    } else {
        let after = encode_all(others).take(m - e0.len());
        assert(encode_all(fs).take(m) =~= e0 + after);
        lemma_decode_encode(f0, after);
        let pre2 = pre + e0;
        lemma_decode_elems_prefix(pre2, others, m - e0.len());
        assert(pre2 + after =~= s);
        assert(decode_elems(s, pre.len() as int, fs.len() as int) == prepend_elems(
            seq![f0],
            decode_elems(s, pre.len() + e0.len() as int, fs.len() - 1),
        ));
    }
}

impl Frame {
    /// Reads the header line that starts at `start` (see [`read_line`]): the
    /// bytes before its terminator, and the number of bytes the line takes up.
    fn find_delimiter(src: &[u8], start: usize) -> (r: Option<(Vec<u8>, usize)>)
        requires
            start <= src@.len(),
        ensures
            match read_line(src@.skip(start as int)) {
                None => r is None,
                Some((content, n)) => r matches Some((buf, m)) && buf@ == content && m as int == n,
            },
    {
        let ghost s = src@.skip(start as int);
        let mut i: usize = start;
        while i < src.len() && src[i] != 10u8
            invariant
                start <= i <= src@.len(),
                s == src@.skip(start as int),
                find_newline(s, 0) == find_newline(s, i - start),
            decreases src@.len() - i,
        {
            assert(s[i - start] == src@[i as int]);
            i = i + 1;
        }
        if i >= src.len() {
            return None;
        }
        assert(s[i - start] == src@[i as int]);
        let end: usize = if i >= start + 1 {
            i - 1
        } else {
            start
        };
        let mut buf: Vec<u8> = Vec::new();
        let mut k: usize = start;
        while k < end
            invariant
                start <= k <= end,
                end <= src@.len(),
                buf@ == src@.subrange(start as int, k as int),
            decreases end - k,
        {
            buf.push(src[k]);
            assert(src@.subrange(start as int, k + 1) =~= src@.subrange(start as int, k as int).push(
                src@[k as int],
            ));
            k = k + 1;
        }
        assert(buf@ =~= s.take(end - start));
        Some((buf, i - start + 1))
    }
}

/// Copies `len` bytes of `src` starting at `from`.
fn copy_bytes(src: &[u8], from: usize, len: usize) -> (r: Vec<u8>)
    requires
        from + len <= src@.len(),
    ensures
        r@ == src@.subrange(from as int, from + len),
{
    let mut buf: Vec<u8> = Vec::new();
    let mut k: usize = 0;
    let total = src.len();
    while k < len
        invariant
            k <= len,
            total == src@.len(),
            from + len <= src@.len(),
            buf@ == src@.subrange(from as int, from + k),
        decreases len - k,
    {
        buf.push(src[from + k]);
        assert(src@.subrange(from as int, from + k + 1) =~= src@.subrange(
            from as int,
            from + k,
        ).push(src@[from + k]));
        k = k + 1;
    }
    buf
}

/// Unfolds one step of `decode_elems` and regroups the prefix.
proof fn lemma_decode_elems_step(
    s: Seq<u8>,
    cursor: int,
    k: int,
    pre: Seq<FrameV>,
    f: FrameV,
    c: int,
)
    requires
        k > 0,
        0 <= cursor <= s.len(),
        spec_decode(s.skip(cursor)) == Some((f, c)),
        !(f is Incomplete),
    ensures
        prepend_elems(pre, decode_elems(s, cursor, k)) == prepend_elems(
            pre.push(f),
            decode_elems(s, cursor + c, k - 1),
        ),
{
    let rest = decode_elems(s, cursor + c, k - 1);
    assert(decode_elems(s, cursor, k) == prepend_elems(seq![f], rest));
    match rest {
        Some(Some((fs, e))) => {
            assert(pre + (seq![f] + fs) =~= pre.push(f) + fs);
        },
        _ => {},
    }
}

/// Decodes the frame that starts at `bytes[start]`.
pub(crate) fn decode_at(bytes: &[u8], start: usize) -> (r: Option<(Frame, usize)>)
    requires
        start <= bytes@.len(),
        bytes@.len() <= isize::MAX,
    ensures
        match spec_decode(bytes@.skip(start as int)) {
            None => r is None,
            Some((v, n)) => r matches Some((f, m)) && f@ == v && m as int == n && n <= bytes@.len()
                - start,
        },
    decreases bytes@.len() - start,
{
    let ghost s = bytes@.skip(start as int);
    if start >= bytes.len() {
        return Some((Frame::Incomplete, 0));
    }
    let prefix = bytes[start];
    let ghost rest = s.drop_first();
    assert(rest =~= bytes@.skip(start + 1));
    assert(s[0] == prefix);
    proof {
        lemma_find_newline(rest, 0);
    }
    if prefix == 43u8 || prefix == 45u8 {
        match Frame::find_delimiter(bytes, start + 1) {
            None => Some((Frame::Incomplete, 0)),
            Some((buf, n)) => {
                match string_from_utf8(buf) {
                    None => None,
                    Some(text) => {
                        let f = if prefix == 43u8 {
                            Frame::SimpleString(text)
                        } else {
                            Frame::Error(text)
                        };
                        Some((f, n + 1))
                    },
                }
            },
        }
    } else if prefix == 58u8 {
        match Frame::find_delimiter(bytes, start + 1) {
            None => Some((Frame::Incomplete, 0)),
            Some((buf, n)) => {
                match str_from_utf8(buf.as_slice()) {
                    None => None,
                    Some(_) => match parse_i64(buf.as_slice()) {
                        None => None,
                        Some(v) => Some((Frame::Integer(v), n + 1)),
                    },
                }
            },
        }
    } else if prefix == 36u8 {
        match Frame::find_delimiter(bytes, start + 1) {
            None => Some((Frame::Incomplete, 0)),
            Some((buf, n)) => {
                match str_from_utf8(buf.as_slice()) {
                    None => None,
                    Some(_) => match parse_i64(buf.as_slice()) {
                        None => Some((Frame::Error("invalid length".to_owned()), 0)),
                        Some(count) => {
                            if count == -1 {
                                Some((Frame::Null, 5))
                            } else if count < -1 {
                                None
                            } else {
                                let data_start = start + 1 + n;
                                let avail = bytes.len() - data_start;
                                if (avail as u64) < (count as u64) + 2 {
                                    Some((Frame::Incomplete, 0))
                                } else {
                                    let len = count as usize;
                                    let data = copy_bytes(bytes, data_start, len);
                                    assert(data@ =~= rest.skip(n as int).take(count as int));
                                    Some((Frame::BulkString(data), n + len + 3))
                                }
                            }
                        },
                    },
                }
            },
        }
    } else if prefix == 42u8 {
        match Frame::find_delimiter(bytes, start + 1) {
            None => Some((Frame::Incomplete, 0)),
            Some((buf, n)) => {
                match str_from_utf8(buf.as_slice()) {
                    None => None,
                    Some(_) => match parse_i64(buf.as_slice()) {
                        None => None,
                        Some(count) => {
                            if count == -1 {
                                return Some((Frame::Null, 5));
                            }
                            let body_start = start + 1 + n;
                            let ghost body = rest.skip(n as int);
                            assert(body =~= bytes@.skip(body_start as int));
                            let mut arr: Vec<Frame> = Vec::new();
                            let mut cursor: usize = 0;
                            let mut i: i64 = 0;
                            proof {
                                lemma_frames_view(arr@);
                                let whole = decode_elems(body, 0, count as int);
                                match whole {
                                    Some(Some((fs, e))) => {
                                        assert(Seq::<FrameV>::empty() + fs =~= fs);
                                    },
                                    _ => {},
                                }
                            }
                            assert(spec_decode(bytes@.skip(start as int)) == array_outcome(
                                decode_elems(body, 0, count as int),
                                n as int,
                            ));
                            while i < count
                                invariant
                                    0 <= i,
                                    spec_decode(bytes@.skip(start as int)) == array_outcome(
                                        decode_elems(body, 0, count as int),
                                        n as int,
                                    ),
                                    body_start == start + 1 + n,
                                    body.len() == bytes@.len() - body_start,
                                    count >= 0 ==> i <= count,
                                    body_start <= bytes@.len(),
                                    bytes@.len() <= isize::MAX,
                                    body == bytes@.skip(body_start as int),
                                    cursor <= body.len(),
                                    decode_elems(body, 0, count as int) == prepend_elems(
                                        frames_view(arr@),
                                        decode_elems(body, cursor as int, count - i),
                                    ),
                                decreases count - i,
                            {
                                if cursor > bytes.len() - body_start {
                                    return None;
                                }
                                assert(body.skip(cursor as int) =~= bytes@.skip(
                                    body_start + cursor,
                                ));
                                match decode_at(bytes, body_start + cursor) {
                                    None => {
                                        return None;
                                    },
                                    Some((f, consumed)) => {
                                        if let Frame::Incomplete = f {
                                            proof {
                                                let k = count - i;
                                                assert(decode_elems(body, cursor as int, k)
                                                    == Some(None::<(Seq<FrameV>, int)>));
                                            }
                                            return Some((Frame::Incomplete, 0));
                                        }
                                        proof {
                                            lemma_decode_elems_step(
                                                body,
                                                cursor as int,
                                                count - i,
                                                frames_view(arr@),
                                                f@,
                                                consumed as int,
                                            );
                                            lemma_frames_view_push(arr@, f);
                                        }
                                        arr.push(f);
                                        cursor = cursor + consumed;
                                        i = i + 1;
                                    },
                                }
                            }
                            proof {
                                let k = count - i;
                                assert(k <= 0);
                                assert(decode_elems(body, cursor as int, k) == Some(
                                    Some((Seq::<FrameV>::empty(), cursor as int)),
                                ));
                                assert(frames_view(arr@) + Seq::<FrameV>::empty() =~= frames_view(
                                    arr@,
                                ));
                            }
                            let total = cursor + n + 1;
                            Some((Frame::Array(arr), total))
                        },
                    },
                }
            },
        }
    } else {
        Some((Frame::Error("invalid prefix".to_owned()), 0))
    }
}

impl Frame {
    /// Decodes the frame at the start of `bytes`, or reports `None` for the
    /// inputs on which decoding panics (see [`spec_decode`]).
    pub fn decode_checked(bytes: &[u8]) -> (r: Option<(Frame, usize)>)
        requires
            bytes@.len() <= isize::MAX,
        ensures
            match spec_decode(bytes@) {
                None => r is None,
                Some((v, n)) => r matches Some((f, m)) && f@ == v && m as int == n,
            },
            r matches Some((_, m)) ==> m <= bytes@.len(),
    {
        assert(bytes@.skip(0) =~= bytes@);
        decode_at(bytes, 0)
    }

    /// Decodes the frame at the start of `bytes`: the frame (or
    /// `Incomplete` when more bytes are needed) and the number of bytes it
    /// consumed.
    pub fn decode(bytes: &[u8]) -> (r: (Frame, usize))
        requires
            bytes@.len() <= isize::MAX,
            spec_decode(bytes@) is Some,
        ensures
            spec_decode(bytes@) == Some((r.0@, r.1 as int)),
            r.1 <= bytes@.len(),
    {
        assert(bytes@.skip(0) =~= bytes@);
        match decode_at(bytes, 0) {
            Some(r) => r,
            None => (Frame::Incomplete, 0),
        }
    }
}

/// Appends the bytes of `src` to `out`.
pub fn push_bytes(out: &mut Vec<u8>, src: &[u8])
    ensures
        final(out)@ == old(out)@ + src@,
{
    let mut i: usize = 0;
    while i < src.len()
        invariant
            i <= src@.len(),
            out@ == old(out)@ + src@.take(i as int),
        decreases src@.len() - i,
    {
        out.push(src[i]);
        assert(src@.take(i + 1) =~= src@.take(i as int).push(src@[i as int]));
        i = i + 1;
    }
    assert(src@.take(i as int) =~= src@);
}

/// A copy of a byte vector.
pub(crate) fn copy_vec(v: &Vec<u8>) -> (r: Vec<u8>)
    ensures
        r@ == v@,
{
    let mut out: Vec<u8> = Vec::new();
    push_bytes(&mut out, v.as_slice());
    assert(out@ =~= v@);
    out
}

fn push_crlf(out: &mut Vec<u8>)
    ensures
        final(out)@ == old(out)@ + crlf(),
{
    out.push(13u8);
    out.push(10u8);
    assert(final(out)@ =~= old(out)@ + crlf());
}

impl Frame {
    /// Appends the wire bytes of this frame to `out`.
    fn write_to(&self, out: &mut Vec<u8>)
        requires
            no_incomplete(self@),
        ensures
            final(out)@ == old(out)@ + spec_encode(self@),
        decreases self,
    {
        match self {
            Frame::Integer(i) => {
                out.push(58u8);
                push_i64_decimal(*i, out);
                push_crlf(out);
                assert(final(out)@ =~= old(out)@ + spec_encode(self@));
            },
            Frame::SimpleString(s) => {
                out.push(43u8);
                push_bytes(out, s.as_str().as_bytes());
                push_crlf(out);
                assert(final(out)@ =~= old(out)@ + spec_encode(self@));
            },
            Frame::BulkString(items) => {
                out.push(36u8);
                push_u64_digits(items.len() as u64, out);
                push_crlf(out);
                push_bytes(out, items.as_slice());
                push_crlf(out);
                assert(final(out)@ =~= old(out)@ + spec_encode(self@));
            },
            Frame::Error(s) => {
                out.push(45u8);
                push_bytes(out, s.as_str().as_bytes());
                push_crlf(out);
                assert(final(out)@ =~= old(out)@ + spec_encode(self@));
            },
            Frame::Array(frames) => {
                let ghost vs = frames_view(frames@);
                proof {
                    lemma_frames_view(frames@);
                    lemma_all_no_incomplete(vs);
                }
                out.push(42u8);
                push_u64_digits(frames.len() as u64, out);
                push_crlf(out);
                let ghost header = out@;
                let mut i: usize = 0;
                while i < frames.len()
                    invariant
                        i <= frames@.len(),
                        *self == Frame::Array(*frames),
                        vs == frames_view(frames@),
                        vs.len() == frames@.len(),
                        forall|k: int| 0 <= k < frames@.len() ==> #[trigger] vs[k] == frame_view(frames@[k]),
                        forall|k: int| 0 <= k < vs.len() ==> #[trigger] no_incomplete(vs[k]),
                        out@ == header + encode_all(vs.take(i as int)),
                    decreases frames@.len() - i,
                {
                    proof {
                        assert(no_incomplete(vs[i as int]));
                        lemma_encode_all_push(vs.take(i as int), vs[i as int]);
                        assert(vs.take(i + 1) =~= vs.take(i as int).push(vs[i as int]));
                        vstd::std_specs::vec::axiom_vec_index_decreases(*frames, i as int);
                        assert(decreases_to!(*self => (*self)->Array_0));
                        assert(decreases_to!(Frame::Array(*frames) => *frames));
                        assert(decreases_to!(*frames => frames@[i as int]));
                        assert(decreases_to!(*self => frames@[i as int]));
                    }
                    frames[i].write_to(out);
                    i = i + 1;
                }
                assert(vs.take(i as int) =~= vs);
                assert(final(out)@ =~= old(out)@ + spec_encode(self@));
            },
            Frame::Null => {
                out.push(36u8);
                out.push(45u8);
                out.push(49u8);
                push_crlf(out);
                assert(final(out)@ =~= old(out)@ + spec_encode(self@));
            },
            Frame::Incomplete => {},
        }
    }

    /// Encodes this frame as RESP wire bytes. A frame that holds an
    /// `Incomplete` marker has no encoding.
    pub fn encode(&self) -> (r: Vec<u8>)
        requires
            no_incomplete(self@),
        ensures
            r@ == spec_encode(self@),
    {
        let mut buf: Vec<u8> = Vec::new();
        self.write_to(&mut buf);
        assert(buf@ =~= spec_encode(self@));
        buf
    }
}


impl Frame {
    /// Encodes several frames one after the other, as a connection writes
    /// its replies.
    pub fn encode_frames(frames: &[Frame]) -> (r: Vec<u8>)
        requires
            all_no_incomplete(frames_view(frames@)),
        ensures
            r@ == encode_all(frames_view(frames@)),
    {
        let ghost vs = frames_view(frames@);
        proof {
            lemma_frames_view(frames@);
            lemma_all_no_incomplete(vs);
        }
        let mut buf: Vec<u8> = Vec::new();
        let mut i: usize = 0;
        assert(vs.take(0) =~= Seq::<FrameV>::empty());
        while i < frames.len()
            invariant
                i <= frames@.len(),
                vs == frames_view(frames@),
                vs.len() == frames@.len(),
                forall|k: int| 0 <= k < frames@.len() ==> #[trigger] vs[k] == frame_view(frames@[k]),
                forall|k: int| 0 <= k < vs.len() ==> #[trigger] no_incomplete(vs[k]),
                buf@ == encode_all(vs.take(i as int)),
            decreases frames@.len() - i,
        {
            proof {
                assert(no_incomplete(vs[i as int]));
                lemma_encode_all_push(vs.take(i as int), vs[i as int]);
                assert(vs.take(i + 1) =~= vs.take(i as int).push(vs[i as int]));
            }
            frames[i].write_to(&mut buf);
            i = i + 1;
        }
        assert(vs.take(i as int) =~= vs);
        buf
    }
}

/// Frames sent one after the other are decoded one at a time, in order:
/// decoding the stream gives the first frame, and what it leaves is the
/// stream of the rest.
pub proof fn lemma_decode_stream(fs: Seq<FrameV>, rest: Seq<u8>)
    requires
        fs.len() > 0,
        all_wire_safe(fs),
    ensures
        spec_decode(encode_all(fs) + rest) == Some((fs[0], spec_encode(fs[0]).len() as int)),
        (encode_all(fs) + rest).skip(spec_encode(fs[0]).len() as int) == encode_all(fs.drop_first())
            + rest,
{
    let head = spec_encode(fs[0]);
    let tail = encode_all(fs.drop_first()) + rest;
    assert(encode_all(fs) + rest =~= head + tail);
    lemma_decode_encode(fs[0], tail);
    assert((head + tail).skip(head.len() as int) =~= tail);
}


impl Frame {
    /// Does this frame have an encoding, that is, hold no `Incomplete`
    /// marker anywhere?
    pub fn is_encodable(&self) -> (r: bool)
        ensures
            r == no_incomplete(self@),
        decreases self,
    {
        match self {
            Frame::Incomplete => false,
            Frame::Array(frames) => {
                let ghost vs = frames_view(frames@);
                proof {
                    lemma_frames_view(frames@);
                    lemma_all_no_incomplete(vs);
                }
                let mut i: usize = 0;
                while i < frames.len()
                    invariant
                        i <= frames@.len(),
                        *self == Frame::Array(*frames),
                        vs == frames_view(frames@),
                        vs.len() == frames@.len(),
                        forall|k: int| 0 <= k < frames@.len() ==> #[trigger] vs[k] == frame_view(frames@[k]),
                        forall|k: int| 0 <= k < i ==> #[trigger] no_incomplete(vs[k]),
                    decreases frames@.len() - i,
                {
                    proof {
                        vstd::std_specs::vec::axiom_vec_index_decreases(*frames, i as int);
                        assert(decreases_to!(*self => (*self)->Array_0));
                        assert(decreases_to!(Frame::Array(*frames) => *frames));
                        assert(decreases_to!(*frames => frames@[i as int]));
                        assert(decreases_to!(*self => frames@[i as int]));
                    }
                    if !frames[i].is_encodable() {
                        assert(!no_incomplete(vs[i as int]));
                        proof {
                            lemma_all_no_incomplete(vs);
                        }
                        assert(!all_no_incomplete(vs));
                        assert(self@ == FrameV::Array(vs));
                        return false;
                    }
                    i = i + 1;
                }
                proof {
                    lemma_all_no_incomplete(vs);
                }
                assert(self@ == FrameV::Array(vs));
                true
            },
            _ => true,
        }
    }
}


/// However the bytes of a stream of frames arrive, a reader that holds the
/// first `m` of them is told to wait for more while the first frame is not
/// whole, and once it is whole gets that frame, consuming exactly its bytes.
pub proof fn lemma_decode_chunked(fs: Seq<FrameV>, rest: Seq<u8>, m: int)
    requires
        fs.len() > 0,
        all_wire_safe(fs),
        0 <= m <= (encode_all(fs) + rest).len(),
    ensures
        spec_decode((encode_all(fs) + rest).take(m)) == if m < spec_encode(fs[0]).len() {
            Some((FrameV::Incomplete, 0int))
        } else {
            Some((fs[0], spec_encode(fs[0]).len() as int))
        },
{
    let head = spec_encode(fs[0]);
    let tail = encode_all(fs.drop_first()) + rest;
    let stream = encode_all(fs) + rest;
    assert(stream =~= head + tail);
    if m < head.len() {
        assert(stream.take(m) =~= head.take(m));
        lemma_decode_prefix(fs[0], m);
    } else {
        assert(stream.take(m) =~= head + tail.take(m - head.len()));
        lemma_decode_encode(fs[0], tail.take(m - head.len()));
    }
}


/// A reader that takes frame after frame from a stream gets the frames
/// that were sent, in order: after the first `j` frames have been taken,
/// what is left is the stream of the others, and it decodes as frame `j`.
pub proof fn lemma_decode_every(fs: Seq<FrameV>, rest: Seq<u8>, j: int)
    requires
        all_wire_safe(fs),
        0 <= j < fs.len(),
    ensures
        (encode_all(fs) + rest).skip(encode_all(fs.take(j)).len() as int) == encode_all(fs.skip(j)) + rest,
        spec_decode(encode_all(fs.skip(j)) + rest) == Some((fs[j], spec_encode(fs[j]).len() as int)),
    decreases j,
{
    if j == 0 {
        assert(fs.take(0) =~= Seq::<FrameV>::empty());
        assert(fs.skip(0) =~= fs);
        assert((encode_all(fs) + rest).skip(0) =~= encode_all(fs) + rest);
        lemma_decode_stream(fs, rest);
    } else {
        let tail = fs.drop_first();
        lemma_decode_every(tail, rest, j - 1);
        lemma_encode_all_split(tail, j - 1);
        let head = spec_encode(fs[0]);
        assert(fs.take(j).drop_first() =~= tail.take(j - 1));
        assert(fs.take(j)[0] == fs[0]);
        assert(encode_all(fs.take(j)) == head + encode_all(tail.take(j - 1)));
        assert(fs.skip(j) =~= tail.skip(j - 1));
        assert(tail[j - 1] == fs[j]);
        assert(encode_all(fs) + rest =~= head + (encode_all(tail) + rest));
        assert((head + (encode_all(tail) + rest)).skip((head.len() + encode_all(tail.take(j - 1)).len()) as int)
            =~= (encode_all(tail) + rest).skip(encode_all(tail.take(j - 1)).len() as int));
    }
}


/// The encoding of a sequence of frames is that of its first `j` frames
/// followed by that of the others.
proof fn lemma_encode_all_split(fs: Seq<FrameV>, j: int)
    requires
        0 <= j <= fs.len(),
    ensures
        encode_all(fs) == encode_all(fs.take(j)) + encode_all(fs.skip(j)),
    decreases j,
{
    if j == 0 {
        assert(fs.take(0) =~= Seq::<FrameV>::empty());
        assert(fs.skip(0) =~= fs);
        assert(encode_all(fs) =~= Seq::<u8>::empty() + encode_all(fs));
    } else {
        let tail = fs.drop_first();
        lemma_encode_all_split(tail, j - 1);
        assert(fs.take(j).drop_first() =~= tail.take(j - 1));
        assert(fs.take(j)[0] == fs[0]);
        assert(fs.skip(j) =~= tail.skip(j - 1));
        assert(encode_all(fs) =~= encode_all(fs.take(j)) + encode_all(fs.skip(j)));
    }
}

} // verus!
