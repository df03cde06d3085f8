//! The binary encoding of frames: `spec_encode` states the exact byte string
//! of a well-formed frame, and `encode` produces it.

use vstd::prelude::*;

use crate::digits::{dec_digits, push_decimal};
use crate::frame::{line_text, Frame, FrameModel, CR, LF};

verus! {

/// Marker byte of a `Simple` frame.
pub const MARK_SIMPLE: u8 = 43;

/// Marker byte of an `Error` frame.
pub const MARK_ERROR: u8 = 45;

/// Marker byte of an `Integer` frame.
pub const MARK_INTEGER: u8 = 58;

/// Marker byte of a `Bulk` or `Null` frame.
pub const MARK_BULK: u8 = 36;

/// Marker byte of an `Array` frame.
pub const MARK_ARRAY: u8 = 42;

/// The two-byte line terminator.
pub open spec fn crlf() -> Seq<u8> {
    seq![CR, LF]
}

/// The bytes of a line-safe text, one byte per character.
pub open spec fn text_bytes(s: Seq<char>) -> Seq<u8> {
    Seq::new(s.len(), |i: int| s[i] as u8)
}

/// The decimal text of a signed integer: an optional minus sign, then the
/// canonical digit string of the magnitude.
pub open spec fn int_bytes(i: int) -> Seq<u8> {
    if i < 0 {
        seq![45u8] + dec_digits(-i)
    } else {
        dec_digits(i)
    }
}

/// The exact byte string a frame takes on the wire.
pub open spec fn spec_encode(f: FrameModel) -> Seq<u8>
    decreases f, 0int,
{
    match f {
        FrameModel::Simple(s) => seq![MARK_SIMPLE] + text_bytes(s) + crlf(),
        FrameModel::Error(s) => seq![MARK_ERROR] + text_bytes(s) + crlf(),
        FrameModel::Integer(i) => seq![MARK_INTEGER] + int_bytes(i) + crlf(),
        FrameModel::Bulk(b) => seq![MARK_BULK] + dec_digits(b.len() as int) + crlf() + b
            + crlf(),
        FrameModel::Null => seq![MARK_BULK, 45u8, 49u8] + crlf(),
        FrameModel::Array(elems) => seq![MARK_ARRAY] + dec_digits(elems.len() as int) + crlf()
            + spec_encode_elems(elems),
    }
}

/// The concatenated encodings of a sequence of frames.
pub open spec fn spec_encode_elems(elems: Seq<FrameModel>) -> Seq<u8>
    decreases elems, 1int,
{
    if elems.len() == 0 {
        Seq::empty()
    } else {
        spec_encode(elems[0]) + spec_encode_elems(elems.subrange(1, elems.len() as int))
    }
}

/// Extending the element sequence appends that element's encoding.
pub proof fn lemma_encode_elems_snoc(elems: Seq<FrameModel>, x: FrameModel)
    ensures
        spec_encode_elems(elems.push(x)) == spec_encode_elems(elems) + spec_encode(x),
    decreases elems.len(),
{
    if elems.len() == 0 {
        assert(spec_encode_elems(Seq::<FrameModel>::empty()) =~= Seq::<u8>::empty());
        assert(elems.push(x)[0] == x);
        assert(elems.push(x).subrange(1, 1) =~= Seq::<FrameModel>::empty());
        assert(spec_encode_elems(elems.push(x)) =~= spec_encode(x) + Seq::<u8>::empty());
        assert(spec_encode(x) + Seq::<u8>::empty() =~= spec_encode(x));
        assert(spec_encode_elems(elems) + spec_encode(x) =~= spec_encode(x));
    } else {
        let rest = elems.subrange(1, elems.len() as int);
        lemma_encode_elems_snoc(rest, x);
        assert(elems.push(x).subrange(1, elems.push(x).len() as int) =~= rest.push(x));
        assert(elems.push(x)[0] == elems[0]);
        assert(spec_encode(elems[0]) + (spec_encode_elems(rest) + spec_encode(x)) =~= (
        spec_encode(elems[0]) + spec_encode_elems(rest)) + spec_encode(x));
    }
}

/// Appends the bytes of a line-safe text to `out`.
fn push_text(s: &String, out: &mut Vec<u8>)
    requires
        line_text(s@),
    ensures
        final(out)@ == old(out)@ + text_bytes(s@),
{
    let st = s.as_str();
    proof {
        vstd::string::is_ascii_spec_bytes(st);
    }
    assert(st.is_ascii());
    let bytes = st.as_bytes();
    assert(bytes@ =~= text_bytes(s@));
    out.extend_from_slice(bytes);
}

/// Appends the bytes of a bulk payload to `out`.
fn push_payload(b: &Vec<u8>, out: &mut Vec<u8>)
    ensures
        final(out)@ == old(out)@ + b@,
{
    out.extend_from_slice(b.as_slice());
}

/// Appends the line terminator to `out`.
fn push_crlf(out: &mut Vec<u8>)
    ensures
        final(out)@ == old(out)@ + crlf(),
{
    out.push(CR);
    out.push(LF);
    proof {
        assert(out@ =~= old(out)@ + crlf());
    }
}

/// Appends the decimal text of `v` to `out`.
fn push_i64(v: i64, out: &mut Vec<u8>)
    ensures
        final(out)@ == old(out)@ + int_bytes(v as int),
{
    if v >= 0 {
        push_decimal(v as u64, out);
    } else {
        out.push(45u8);
        let m: u64 = ((-(v + 1)) as u64) + 1;
        proof {
            assert(m as int == -(v as int));
        }
        push_decimal(m, out);
        proof {
            assert(out@ =~= old(out)@ + int_bytes(v as int));
        }
    }
}

/// Appends the encoding of `f` to `out`.
#[verifier::loop_isolation(false)]
pub fn encode_into(f: &Frame, out: &mut Vec<u8>)
    requires
        crate::frame::frame_wf(f@),
    ensures
        final(out)@ == old(out)@ + spec_encode(f@),
    decreases *f,
{
    match f {
        Frame::Simple(s) => {
            out.push(MARK_SIMPLE);
            push_text(s, out);
            push_crlf(out);
            proof {
                assert(out@ =~= old(out)@ + spec_encode(f@));
            }
        },
        Frame::Error(s) => {
            out.push(MARK_ERROR);
            push_text(s, out);
            push_crlf(out);
            proof {
                assert(out@ =~= old(out)@ + spec_encode(f@));
            }
        },
        Frame::Integer(v) => {
            out.push(MARK_INTEGER);
            push_i64(*v, out);
            push_crlf(out);
            proof {
                assert(out@ =~= old(out)@ + spec_encode(f@));
            }
        },
        Frame::Bulk(b) => {
            out.push(MARK_BULK);
            push_decimal(b.len() as u64, out);
            push_crlf(out);
            push_payload(b, out);
            push_crlf(out);
            proof {
                assert(out@ =~= old(out)@ + spec_encode(f@));
            }
        },
        Frame::Null => {
            out.push(MARK_BULK);
            out.push(45u8);
            out.push(49u8);
            push_crlf(out);
            proof {
                assert(out@ =~= old(out)@ + spec_encode(f@));
            }
        },
        Frame::Array(elems) => {
            let ghost ms = f@->Array_0;
            proof {
                crate::frame::lemma_frame_models_index(elems@);
            }
            out.push(MARK_ARRAY);
            push_decimal(elems.len() as u64, out);
            push_crlf(out);
            let ghost header = old(out)@ + seq![MARK_ARRAY] + dec_digits(ms.len() as int)
                + crlf();
            proof {
                assert(out@ =~= header);
                assert(ms.take(0) =~= Seq::<FrameModel>::empty());
                assert(out@ =~= header + spec_encode_elems(ms.take(0)));
            }
            let mut i: usize = 0;
            while i < elems.len()
                invariant
                    0 <= i <= elems@.len(),
                    out@ == header + spec_encode_elems(ms.take(i as int)),
                decreases elems@.len() - i,
            {
                proof {
                    assert(decreases_to!(*f => *elems));
                    assert(decreases_to!(*elems => elems@));
                    assert(decreases_to!(elems@ => elems@[i as int]));
                }
                encode_into(&elems[i], out);
                proof {
                    lemma_encode_elems_snoc(ms.take(i as int), ms[i as int]);
                    assert(ms.take(i as int).push(ms[i as int]) =~= ms.take(i as int + 1));
                    assert((header + spec_encode_elems(ms.take(i as int))) + spec_encode(
                        ms[i as int],
                    ) =~= header + (spec_encode_elems(ms.take(i as int)) + spec_encode(
                        ms[i as int],
                    )));
                }
                i += 1;
            }
            proof {
                assert(ms.take(ms.len() as int) =~= ms);
                assert(out@ =~= old(out)@ + spec_encode(f@));
            }
        },
    }
}

/// The wire bytes of a well-formed frame.
pub fn encode(f: &Frame) -> (out: Vec<u8>)
    requires
        crate::frame::frame_wf(f@),
    ensures
        out@ == spec_encode(f@),
{
    let mut out: Vec<u8> = Vec::new();
    encode_into(f, &mut out);
    proof {
        assert(out@ =~= spec_encode(f@));
    }
    out
}

} // verus!
