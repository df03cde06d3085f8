//! The wire value type: a `Frame` carries one typed value of the protocol.
//!
//! `FrameModel` is the mathematical shape of a frame; contracts throughout the
//! crate speak of it through the `View` of `Frame`.

use vstd::prelude::*;

verus! {

broadcast use vstd::std_specs::vec::group_vec_axioms;

/// Carriage return, the first byte of the line terminator.
pub const CR: u8 = 13;

/// Line feed, the second byte of the line terminator.
pub const LF: u8 = 10;

/// Largest accepted bulk payload length or array element count.
pub const MAX_LEN: usize = 536870912;

/// Mathematical model of one frame.
pub enum FrameModel {
    Simple(Seq<char>),
    Error(Seq<char>),
    Integer(int),
    Bulk(Seq<u8>),
    Null,
    Array(Seq<FrameModel>),
}

/// One self-delimited unit of the wire protocol.
pub enum Frame {
    /// A short status string; its text must be line-safe (see `line_char`).
    Simple(String),
    /// An error report; its text must be line-safe.
    Error(String),
    /// A signed 64-bit integer.
    Integer(i64),
    /// An arbitrary binary payload, length-prefixed on the wire.
    Bulk(Vec<u8>),
    /// Absence of a value.
    Null,
    /// An ordered sequence of frames, used to carry a command's parts.
    Array(Vec<Frame>),
}

/// A character that may stand inside a `Simple` or `Error` line: ASCII and
/// not part of the line terminator.
pub open spec fn line_char(c: char) -> bool {
    '\0' <= c <= '\u{7f}' && c != '\r' && c != '\n'
}

/// Text that may stand as a `Simple` or `Error` payload.
pub open spec fn line_text(s: Seq<char>) -> bool {
    forall|i: int| 0 <= i < s.len() ==> line_char(#[trigger] s[i])
}

/// A well-formed frame: line payloads are line-safe, the integer fits the
/// wire's 64-bit range, and bulk payloads and arrays respect `MAX_LEN`.
pub open spec fn frame_wf(f: FrameModel) -> bool
    decreases f,
{
    match f {
        FrameModel::Simple(s) => line_text(s),
        FrameModel::Error(s) => line_text(s),
        FrameModel::Integer(i) => i64::MIN <= i <= i64::MAX,
        FrameModel::Bulk(b) => b.len() <= MAX_LEN,
        FrameModel::Null => true,
        FrameModel::Array(elems) => elems.len() <= MAX_LEN && (forall|i: int|
            0 <= i < elems.len() ==> frame_wf(#[trigger] elems[i])),
    }
}

/// The model of an executable frame.
pub open spec fn frame_model(f: Frame) -> FrameModel
    decreases f, 0int,
{
    match f {
        Frame::Simple(s) => FrameModel::Simple(s@),
        Frame::Error(s) => FrameModel::Error(s@),
        Frame::Integer(i) => FrameModel::Integer(i as int),
        Frame::Bulk(b) => FrameModel::Bulk(b@),
        Frame::Null => FrameModel::Null,
        Frame::Array(elems) => FrameModel::Array(frame_models(elems@)),
    }
}

/// The models of a sequence of executable frames, in order.
pub open spec fn frame_models(elems: Seq<Frame>) -> Seq<FrameModel>
    decreases elems, 1int,
{
    if elems.len() == 0 {
        Seq::empty()
    } else {
        seq![frame_model(elems[0])] + frame_models(elems.subrange(1, elems.len() as int))
    }
}

impl View for Frame {
    type V = FrameModel;

    open spec fn view(&self) -> FrameModel {
        frame_model(*self)
    }
}

/// `frame_models` maps the sequence elementwise.
pub proof fn lemma_frame_models_index(s: Seq<Frame>)
    ensures
        frame_models(s).len() == s.len(),
        forall|i: int| 0 <= i < s.len() ==> frame_models(s)[i] == frame_model(#[trigger] s[i]),
    decreases s.len(),
{
    if s.len() > 0 {
        lemma_frame_models_index(s.subrange(1, s.len() as int));
        assert forall|i: int| 0 <= i < s.len() implies frame_models(s)[i] == frame_model(
            #[trigger] s[i],
        ) by {
            if i > 0 {
                assert(s.subrange(1, s.len() as int)[i - 1] == s[i]);
            }
        }
    }
}

impl Frame {
    /// Whether this frame is well-formed; the executable mirror of `frame_wf`.
    #[verifier::loop_isolation(false)]
    pub fn is_wf(&self) -> (r: bool)
        ensures
            r == frame_wf(self@),
        decreases *self,
    {
        match self {
            Frame::Simple(s) => text_is_line_safe(s),
            Frame::Error(s) => text_is_line_safe(s),
            Frame::Integer(_) => true,
            Frame::Bulk(b) => b.len() <= MAX_LEN,
            Frame::Null => true,
            Frame::Array(elems) => {
                let ghost ms = self@->Array_0;
                proof {
                    lemma_frame_models_index(elems@);
                    assert(self@ is Array);
                    assert(ms.len() == elems@.len());
                }
                if elems.len() > MAX_LEN {
                    return false;
                }
                let mut i: usize = 0;
                while i < elems.len()
                    invariant
                        0 <= i <= elems@.len(),
                        elems@.len() <= MAX_LEN,
                        ms == self@->Array_0 && self@ is Array,
                        ms.len() == elems@.len(),
                        forall|j: int| 0 <= j < i ==> frame_wf(#[trigger] ms[j]),
                    decreases elems@.len() - i,
                {
                    proof {
                        assert(ms[i as int] == frame_model(elems@[i as int]));
                        assert(decreases_to!(*self => *elems));
                        assert(decreases_to!(*elems => elems@));
                        assert(decreases_to!(elems@ => elems@[i as int]));
                    }
                    if !elems[i].is_wf() {
                        assert(!frame_wf(ms[i as int]));
                        return false;
                    }
                    i += 1;
                }
                true
            },
        }
    }
}

/// Whether every character of `s` is line-safe.
pub fn text_is_line_safe(s: &String) -> (r: bool)
    ensures
        r == line_text(s@),
{
    if !s.is_ascii() {
        let ghost i = choose|i: int|
            !(0 <= i < s@.len() ==> '\0' <= #[trigger] s@[i] <= '\u{7f}');
        assert(!line_char(s@[i]));
        return false;
    }
    let st = s.as_str();
    let n = st.unicode_len();
    let mut i: usize = 0;
    while i < n
        invariant
            0 <= i <= n,
            n == s@.len(),
            st@ == s@,
            st.is_ascii(),
            forall|j: int| 0 <= j < i ==> line_char(#[trigger] s@[j]),
        decreases n - i,
    {
        let b = st.get_ascii(i);
        if b == CR || b == LF {
            assert(s@[i as int] as u8 == b);
            assert('\0' <= s@[i as int] <= '\u{7f}');
            assert(s@[i as int] == '\r' || s@[i as int] == '\n');
            return false;
        }
        assert(line_char(s@[i as int])) by {
            assert(s@[i as int] as u8 == b);
            assert('\0' <= s@[i as int] <= '\u{7f}');
        }
        i += 1;
    }
    true
}

/// Prepending a frame prepends its model.
pub proof fn lemma_frame_models_cons(f: Frame, rest: Seq<Frame>)
    ensures
        frame_models(seq![f] + rest) == seq![frame_model(f)] + frame_models(rest),
{
    let s = seq![f] + rest;
    assert(s[0] == f);
    assert(s.subrange(1, s.len() as int) =~= rest);
}

} // verus!
