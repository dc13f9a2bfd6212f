//! How a frame is shown to a person: its variant's name and its contents,
//! an array one element per line, each indented by a tab.

use vstd::prelude::*;
use vstd::utf8::{decode_utf8, encode_utf8, valid_utf8};
use crate::decimal::{int_decimal, push_i64_decimal};
use crate::frame::{frame_view, frames_view, lemma_decimal_valid_utf8, lemma_frames_view, push_bytes, Frame, FrameV};
use crate::text::string_from_utf8;

verus! {

broadcast use vstd::utf8::group_utf8_lib;

/// The text a frame is shown as, in UTF-8 bytes.
pub open spec fn display_bytes(f: FrameV) -> Seq<u8>
    decreases f,
{
    match f {
        FrameV::Integer(n) => encode_utf8("Frame::Integer("@) + int_decimal(n as int) + encode_utf8(")"@),
        FrameV::SimpleString(s) => encode_utf8("Frame::SimpleString("@) + encode_utf8(s) + encode_utf8(")"@),
        FrameV::BulkString(b) => encode_utf8("Frame::BulkString("@) + b + encode_utf8(")"@),
        FrameV::Error(s) => encode_utf8("Frame::Error("@) + encode_utf8(s) + encode_utf8(")"@),
        FrameV::Null => encode_utf8("Frame::Null"@),
        FrameV::Array(fs) => encode_utf8("Frame::Array [\n"@) + display_elems(fs) + encode_utf8("]\n"@),
        FrameV::Incomplete => encode_utf8("Frame::Incomplete"@),
    }
}

/// The lines that show the elements of an array: a tab, the element, a
/// line feed, for each element in turn.
pub open spec fn display_elems(fs: Seq<FrameV>) -> Seq<u8>
    decreases fs,
{
    if fs.len() == 0 {
        Seq::empty()
    } else {
        encode_utf8("\t"@) + display_bytes(fs[0]) + encode_utf8("\n"@) + display_elems(fs.drop_first())
    }
}

/// Every bulk string inside the frame is UTF-8 text, so that it can be shown.
pub open spec fn displayable(f: FrameV) -> bool
    decreases f,
{
    match f {
        FrameV::BulkString(b) => valid_utf8(b),
        FrameV::Array(fs) => all_displayable(fs),
        _ => true,
    }
}

/// Every frame of the sequence can be shown.
pub open spec fn all_displayable(fs: Seq<FrameV>) -> bool
    decreases fs,
{
    fs.len() == 0 || (displayable(fs[0]) && all_displayable(fs.drop_first()))
}

/// The text of a frame that can be shown is valid UTF-8.
proof fn lemma_display_valid(f: FrameV)
    requires
        displayable(f),
    ensures
        valid_utf8(display_bytes(f)),
    decreases f,
{
    match f {
        FrameV::Integer(n) => {
            lemma_decimal_valid_utf8(n as int);
            lemma_concat3(encode_utf8("Frame::Integer("@), int_decimal(n as int), encode_utf8(")"@));
        },
        FrameV::SimpleString(t) => {
            lemma_concat3(encode_utf8("Frame::SimpleString("@), encode_utf8(t), encode_utf8(")"@));
        },
        FrameV::BulkString(b) => {
            lemma_concat3(encode_utf8("Frame::BulkString("@), b, encode_utf8(")"@));
        },
        FrameV::Error(t) => {
            lemma_concat3(encode_utf8("Frame::Error("@), encode_utf8(t), encode_utf8(")"@));
        },
        FrameV::Array(fs) => {
            lemma_display_elems_valid(fs);
            lemma_concat3(encode_utf8("Frame::Array [\n"@), display_elems(fs), encode_utf8("]\n"@));
        },
        _ => {},
    }
}

/// Three valid UTF-8 byte sequences, one after the other, are valid UTF-8.
proof fn lemma_concat3(a: Seq<u8>, b: Seq<u8>, c: Seq<u8>)
    requires
        valid_utf8(a),
        valid_utf8(b),
        valid_utf8(c),
    ensures
        valid_utf8(a + b + c),
{
    vstd::utf8::valid_utf8_concat(a, b);
    vstd::utf8::valid_utf8_concat(a + b, c);
}

/// The lines of the elements of an array that can be shown are valid UTF-8.
proof fn lemma_display_elems_valid(fs: Seq<FrameV>)
    requires
        all_displayable(fs),
    ensures
        valid_utf8(display_elems(fs)),
    decreases fs,
{
    if fs.len() > 0 {
        lemma_display_valid(fs[0]);
        lemma_display_elems_valid(fs.drop_first());
        lemma_concat3(encode_utf8("\t"@), display_bytes(fs[0]), encode_utf8("\n"@));
        vstd::utf8::valid_utf8_concat(
            encode_utf8("\t"@) + display_bytes(fs[0]) + encode_utf8("\n"@),
            display_elems(fs.drop_first()),
        );
    }
}

/// Showing one more element appends its line.
proof fn lemma_display_elems_push(fs: Seq<FrameV>, f: FrameV)
    ensures
        display_elems(fs.push(f)) == display_elems(fs) + (encode_utf8("\t"@) + display_bytes(f) + encode_utf8(
            "\n"@,
        )),
    decreases fs.len(),
{
    let line = encode_utf8("\t"@) + display_bytes(f) + encode_utf8("\n"@);
    if fs.len() == 0 {
        assert(fs.push(f).drop_first() =~= Seq::<FrameV>::empty());
        assert(fs.push(f)[0] == f);
        assert(display_elems(fs.push(f)) == line + display_elems(Seq::<FrameV>::empty()));
        assert(display_elems(fs.push(f)) =~= display_elems(fs) + line);
    } else {
        lemma_display_elems_push(fs.drop_first(), f);
        let first = encode_utf8("\t"@) + display_bytes(fs[0]) + encode_utf8("\n"@);
        assert(fs.push(f).drop_first() =~= fs.drop_first().push(f));
        assert(fs.push(f)[0] == fs[0]);
        assert(display_elems(fs.push(f)) == first + display_elems(fs.drop_first().push(f)));
        assert(display_elems(fs) == first + display_elems(fs.drop_first()));
        assert(display_elems(fs.push(f)) =~= display_elems(fs) + line);
    }
}

/// `all_displayable` holds element by element.
proof fn lemma_all_displayable(fs: Seq<FrameV>)
    ensures
        all_displayable(fs) <==> forall|i: int| 0 <= i < fs.len() ==> #[trigger] displayable(fs[i]),
    decreases fs.len(),
{
    if fs.len() > 0 {
        lemma_all_displayable(fs.drop_first());
        if forall|i: int| 0 <= i < fs.len() ==> #[trigger] displayable(fs[i]) {
            assert(displayable(fs[0]));
            assert forall|i: int| 0 <= i < fs.drop_first().len() implies #[trigger] displayable(
                fs.drop_first()[i],
            ) by {
                assert(displayable(fs[i + 1]));
            }
        }
        if all_displayable(fs) {
            assert forall|i: int| 0 <= i < fs.len() implies #[trigger] displayable(fs[i]) by {
                if i > 0 {
                    assert(fs.drop_first()[i - 1] == fs[i]);
                }
            }
        }
    }
}

impl Frame {
    /// Appends the text this frame is shown as to `out`.
    fn write_display(&self, out: &mut Vec<u8>)
        requires
            displayable(self@),
        ensures
            final(out)@ == old(out)@ + display_bytes(self@),
        decreases self,
    {
        match self {
            Frame::Integer(n) => {
                push_bytes(out, "Frame::Integer(".as_bytes());
                push_i64_decimal(*n, out);
                push_bytes(out, ")".as_bytes());
            },
            Frame::SimpleString(s) => {
                push_bytes(out, "Frame::SimpleString(".as_bytes());
                push_bytes(out, s.as_str().as_bytes());
                push_bytes(out, ")".as_bytes());
            },
            Frame::BulkString(b) => {
                push_bytes(out, "Frame::BulkString(".as_bytes());
                push_bytes(out, b.as_slice());
                push_bytes(out, ")".as_bytes());
            },
            Frame::Error(s) => {
                push_bytes(out, "Frame::Error(".as_bytes());
                push_bytes(out, s.as_str().as_bytes());
                push_bytes(out, ")".as_bytes());
            },
            Frame::Null => {
                push_bytes(out, "Frame::Null".as_bytes());
            },
            Frame::Array(frames) => {
                let ghost vs = frames_view(frames@);
                proof {
                    lemma_frames_view(frames@);
                    lemma_all_displayable(vs);
                }
                push_bytes(out, "Frame::Array [\n".as_bytes());
                let ghost header = out@;
                let mut i: usize = 0;
                assert(vs.take(0) =~= Seq::<FrameV>::empty());
                while i < frames.len()
                    invariant
                        i <= frames@.len(),
                        *self == Frame::Array(*frames),
                        vs == frames_view(frames@),
                        vs.len() == frames@.len(),
                        forall|k: int| 0 <= k < frames@.len() ==> #[trigger] vs[k] == frame_view(frames@[k]),
                        forall|k: int| 0 <= k < vs.len() ==> #[trigger] displayable(vs[k]),
                        out@ == header + display_elems(vs.take(i as int)),
                    decreases frames@.len() - i,
                {
                    proof {
                        assert(displayable(vs[i as int]));
                        lemma_display_elems_push(vs.take(i as int), vs[i as int]);
                        assert(vs.take(i + 1) =~= vs.take(i as int).push(vs[i as int]));
                        vstd::std_specs::vec::axiom_vec_index_decreases(*frames, i as int);
                        assert(decreases_to!(*self => (*self)->Array_0));
                        assert(decreases_to!(Frame::Array(*frames) => *frames));
                        assert(decreases_to!(*frames => frames@[i as int]));
                        assert(decreases_to!(*self => frames@[i as int]));
                    }
                    push_bytes(out, "\t".as_bytes());
                    frames[i].write_display(out);
                    push_bytes(out, "\n".as_bytes());
                    i = i + 1;
                }
                assert(vs.take(i as int) =~= vs);
                push_bytes(out, "]\n".as_bytes());
            },
            Frame::Incomplete => {
                push_bytes(out, "Frame::Incomplete".as_bytes());
            },
        }
        assert(final(out)@ =~= old(out)@ + display_bytes(self@));
    }

    /// The text this frame is shown as: its variant's name and its
    /// contents, an array one element per line, each indented by a tab.
    /// Bulk strings are shown as text, so each must be UTF-8.
    pub fn to_display_string(&self) -> (r: String)
        requires
            displayable(self@),
        ensures
            r@ == decode_utf8(display_bytes(self@)),
    {
        let mut buf: Vec<u8> = Vec::new();
        self.write_display(&mut buf);
        assert(buf@ =~= display_bytes(self@));
        proof {
            lemma_display_valid(self@);
        }
        match string_from_utf8(buf) {
            Some(s) => s,
            None => String::new(),
        }
    }
}

} // verus!
