//! The wire format's round-trip laws.
//!
//! `lemma_round_trip`: decoding the encoding of any well-formed frame yields
//! exactly that frame and consumes exactly its bytes.  `lemma_prefix_incomplete`:
//! every proper prefix of an encoding is reported `Incomplete`, so a decoder
//! fed a frame split at any byte boundary waits, and yields the original
//! frame once the last byte has arrived.

use vstd::prelude::*;

use crate::digits::{
    all_digits, dec_digits, is_digit, lemma_dec_digits_digits, lemma_dec_digits_len,
    lemma_digits_val_dec_digits, lemma_pow10_values,
};
use crate::decode::{
    chars_of, find_crlf, line_ok, null_line, parse_int, parse_len, spec_decode, spec_decode_elems,
    DecodeError, SpecElems, SpecOutcome, lemma_find_crlf_at, lemma_find_crlf_none,
};
use crate::encode::{crlf, int_bytes, spec_encode, spec_encode_elems, text_bytes};
use crate::frame::{frame_wf, line_text, FrameModel, CR, LF, MAX_LEN};

verus! {

/// Bytes that contain neither terminator byte.
pub open spec fn line_clean(line: Seq<u8>) -> bool {
    forall|i: int| 0 <= i < line.len() ==> ((#[trigger] line[i]) != CR && line[i] != LF)
}

/// The bytes of line-safe text convert back to the same text, and are
/// themselves a valid line.
proof fn lemma_text_bytes(s: Seq<char>)
    requires
        line_text(s),
    ensures
        text_bytes(s).len() == s.len(),
        chars_of(text_bytes(s)) == s,
        line_ok(text_bytes(s)),
{
    assert forall|i: int| 0 <= i < s.len() implies ((#[trigger] text_bytes(s)[i]) < 128
        && text_bytes(s)[i] != CR && text_bytes(s)[i] != LF) by {
        assert(crate::frame::line_char(s[i]));
    }
    assert forall|i: int| 0 <= i < s.len() implies (#[trigger] chars_of(text_bytes(s))[i])
        == s[i] by {
        assert(crate::frame::line_char(s[i]));
        assert(text_bytes(s)[i] == s[i] as u8);
    }
    assert(chars_of(text_bytes(s)) =~= s);
}

/// Digit strings and a possible leading minus sign are line-clean.
proof fn lemma_digits_clean(line: Seq<u8>)
    requires
        forall|i: int| 0 <= i < line.len() ==> (is_digit(#[trigger] line[i]) || line[i] == 45),
    ensures
        line_clean(line),
{
}

/// The first terminator of a clean line followed by one stands right after
/// the line, whatever comes later.
proof fn lemma_crlf_after_line(line: Seq<u8>, tail: Seq<u8>)
    requires
        line_clean(line),
    ensures
        find_crlf(line + crlf() + tail) == Option::Some(line.len() as int),
{
    let b = line + crlf() + tail;
    assert(b[line.len() as int] == CR);
    assert(b[line.len() as int + 1] == LF);
    assert forall|j: int| 0 <= j < line.len() implies !((#[trigger] b[j]) == CR && b[j + 1]
        == LF) by {
        assert(b[j] == line[j]);
    }
    lemma_find_crlf_at(b, line.len() as int);
}

/// A prefix of a clean line and its terminator that stops before the final
/// byte holds no terminator at all.
proof fn lemma_crlf_prefix_none(line: Seq<u8>, p: int)
    requires
        line_clean(line),
        0 <= p <= line.len() + 1,
    ensures
        find_crlf((line + crlf()).take(p)) == Option::None::<int>,
{
    let b = (line + crlf()).take(p);
    assert forall|j: int| 0 <= j && j + 2 <= b.len() implies !((#[trigger] b[j]) == CR && b[j
        + 1] == LF) by {
        assert(b[j] == line[j]);
    }
    lemma_find_crlf_none(b);
}

/// The decimal text of an in-range integer reads back as that integer.
proof fn lemma_int_bytes_roundtrip(v: int)
    requires
        i64::MIN <= v <= i64::MAX,
    ensures
        parse_int(int_bytes(v)) == Result::<int, DecodeError>::Ok(v),
        forall|i: int|
            0 <= i < int_bytes(v).len() ==> (is_digit(#[trigger] int_bytes(v)[i])
                || int_bytes(v)[i] == 45),
{
    lemma_pow10_values();
    if v >= 0 {
        lemma_dec_digits_digits(v);
        lemma_digits_val_dec_digits(v);
        lemma_dec_digits_len(v, 19);
        let line = int_bytes(v);
        assert(line == dec_digits(v));
        assert(is_digit(line[0]));
        assert(!(line[0] == 45));
        assert(parse_int(line) == Result::<int, DecodeError>::Ok(v));
    } else {
        let m = -v;
        lemma_dec_digits_digits(m);
        lemma_digits_val_dec_digits(m);
        lemma_dec_digits_len(m, 19);
        let line = int_bytes(v);
        assert(line == seq![45u8] + dec_digits(m));
        assert(line[0] == 45);
        let ds = line.subrange(1, line.len() as int);
        assert(ds =~= dec_digits(m));
        assert(parse_int(line) == Result::<int, DecodeError>::Ok(v));
    }
}

/// The decimal text of an in-range length reads back as that length, and is
/// not the null marker.
proof fn lemma_len_bytes_roundtrip(n: int)
    requires
        0 <= n <= MAX_LEN,
    ensures
        parse_len(dec_digits(n)) == Result::<int, DecodeError>::Ok(n),
        dec_digits(n) != null_line(),
        all_digits(dec_digits(n)),
{
    lemma_pow10_values();
    lemma_dec_digits_digits(n);
    lemma_digits_val_dec_digits(n);
    lemma_dec_digits_len(n, 10);
    assert(is_digit(dec_digits(n)[0]));
    assert(null_line()[0] == 45);
    assert(dec_digits(n) != null_line());
}

/// Every encoding starts with a marker and a line of at least two more
/// bytes: it is at least three bytes long.
proof fn lemma_encode_len(f: FrameModel)
    ensures
        spec_encode(f).len() >= 3,
{
    match f {
        FrameModel::Integer(i) => {
            if i >= 0 {
                lemma_dec_digits_digits(i);
            } else {
                lemma_dec_digits_digits(-i);
            }
        },
        FrameModel::Bulk(b) => {
            lemma_dec_digits_digits(b.len() as int);
        },
        FrameModel::Array(elems) => {
            lemma_dec_digits_digits(elems.len() as int);
        },
        _ => {},
    }
}

/// Decoding the encoding of a well-formed frame, whatever follows it, yields
/// that frame and consumes exactly its encoding.
pub proof fn lemma_decode_encode(f: FrameModel, tail: Seq<u8>)
    requires
        frame_wf(f),
    ensures
        spec_decode(spec_encode(f) + tail) == SpecOutcome::Ready(
            f,
            spec_encode(f).len() as int,
        ),
    decreases f, 0int,
{
    let e = spec_encode(f) + tail;
    lemma_encode_len(f);
    match f {
        FrameModel::Simple(s) => {
            lemma_text_bytes(s);
            let line = text_bytes(s);
            let rest = e.subrange(1, e.len() as int);
            assert(rest =~= line + crlf() + tail);
            lemma_crlf_after_line(line, tail);
            assert(rest.take(line.len() as int) =~= line);
            assert(chars_of(line) == s);
        },
        FrameModel::Error(s) => {
            lemma_text_bytes(s);
            let line = text_bytes(s);
            let rest = e.subrange(1, e.len() as int);
            assert(rest =~= line + crlf() + tail);
            lemma_crlf_after_line(line, tail);
            assert(rest.take(line.len() as int) =~= line);
            assert(chars_of(line) == s);
        },
        FrameModel::Integer(v) => {
            lemma_int_bytes_roundtrip(v);
            let line = int_bytes(v);
            lemma_digits_clean(line);
            let rest = e.subrange(1, e.len() as int);
            assert(rest =~= line + crlf() + tail);
            lemma_crlf_after_line(line, tail);
            assert(rest.take(line.len() as int) =~= line);
        },
        FrameModel::Bulk(body) => {
            let n = body.len() as int;
            lemma_len_bytes_roundtrip(n);
            let line = dec_digits(n);
            lemma_digits_clean(line);
            let rest = e.subrange(1, e.len() as int);
            assert(rest =~= line + crlf() + (body + crlf() + tail));
            lemma_crlf_after_line(line, body + crlf() + tail);
            let i = line.len() as int;
            assert(rest.take(i) =~= line);
            let after = rest.subrange(i + 2, rest.len() as int);
            assert(after =~= body + crlf() + tail);
            assert(after[n] == CR);
            assert(after[n + 1] == LF);
            assert(after.take(n) =~= body);
            assert(spec_encode(f).len() == 3 + i + n + 2);
        },
        FrameModel::Null => {
            let rest = e.subrange(1, e.len() as int);
            assert(rest =~= null_line() + crlf() + tail);
            assert(line_clean(null_line()));
            lemma_crlf_after_line(null_line(), tail);
            assert(rest.take(2) =~= null_line());
        },
        FrameModel::Array(elems) => {
            let n = elems.len() as int;
            lemma_len_bytes_roundtrip(n);
            let line = dec_digits(n);
            lemma_digits_clean(line);
            let body = spec_encode_elems(elems);
            let rest = e.subrange(1, e.len() as int);
            assert(rest =~= line + crlf() + (body + tail));
            lemma_crlf_after_line(line, body + tail);
            let i = line.len() as int;
            assert(rest.take(i) =~= line);
            assert(1 <= 3 + i <= e.len());
            assert(e.subrange(3 + i, e.len() as int) =~= body + tail);
            lemma_decode_encode_elems(elems, tail);
            assert(spec_encode(f).len() == 3 + i + body.len());
        },
    }
}

/// Decoding the concatenated encodings of well-formed frames, whatever
/// follows them, yields those frames in order.
pub proof fn lemma_decode_encode_elems(elems: Seq<FrameModel>, tail: Seq<u8>)
    requires
        forall|i: int| 0 <= i < elems.len() ==> frame_wf(#[trigger] elems[i]),
    ensures
        spec_decode_elems(spec_encode_elems(elems) + tail, elems.len() as int)
            == SpecElems::Ready(elems, spec_encode_elems(elems).len() as int),
    decreases elems, 1int,
{
    if elems.len() == 0 {
        assert(spec_encode_elems(elems) + tail =~= tail);
        assert(elems =~= Seq::<FrameModel>::empty());
    } else {
        let head = elems[0];
        let rest_elems = elems.subrange(1, elems.len() as int);
        let e0 = spec_encode(head);
        let erest = spec_encode_elems(rest_elems);
        let b = spec_encode_elems(elems) + tail;
        assert(b =~= e0 + (erest + tail));
        lemma_decode_encode(head, erest + tail);
        lemma_encode_len(head);
        let c = e0.len() as int;
        assert(1 <= c <= b.len());
        assert(b.subrange(c, b.len() as int) =~= erest + tail);
        lemma_decode_encode_elems(rest_elems, tail);
        assert(seq![head] + rest_elems =~= elems);
        assert(spec_encode_elems(elems).len() == c + erest.len());
    }
}

/// Decoding the exact encoding of a well-formed frame yields that frame and
/// consumes the whole buffer.
pub proof fn lemma_round_trip(f: FrameModel)
    requires
        frame_wf(f),
    ensures
        spec_decode(spec_encode(f)) == SpecOutcome::Ready(f, spec_encode(f).len() as int),
{
    lemma_decode_encode(f, Seq::empty());
    assert(spec_encode(f) + Seq::<u8>::empty() =~= spec_encode(f));
}

/// A strict prefix of the encoding of a well-formed frame is reported
/// incomplete: the decoder waits for the rest rather than failing or
/// misreading.
pub proof fn lemma_prefix_incomplete(f: FrameModel, k: int)
    requires
        frame_wf(f),
        0 <= k < spec_encode(f).len(),
    ensures
        spec_decode(spec_encode(f).take(k)) == SpecOutcome::Incomplete,
    decreases f, 0int,
{
    let e = spec_encode(f);
    let p = e.take(k);
    lemma_encode_len(f);
    if k == 0 {
        assert(p =~= Seq::<u8>::empty());
    } else {
        match f {
            FrameModel::Simple(s) => {
                lemma_text_bytes(s);
                let line = text_bytes(s);
                assert(p[0] == e[0]);
                assert(p.subrange(1, k) =~= (line + crlf()).take(k - 1));
                lemma_crlf_prefix_none(line, k - 1);
            },
            FrameModel::Error(s) => {
                lemma_text_bytes(s);
                let line = text_bytes(s);
                assert(p[0] == e[0]);
                assert(p.subrange(1, k) =~= (line + crlf()).take(k - 1));
                lemma_crlf_prefix_none(line, k - 1);
            },
            FrameModel::Integer(v) => {
                lemma_int_bytes_roundtrip(v);
                let line = int_bytes(v);
                lemma_digits_clean(line);
                assert(p[0] == e[0]);
                assert(p.subrange(1, k) =~= (line + crlf()).take(k - 1));
                lemma_crlf_prefix_none(line, k - 1);
            },
            FrameModel::Null => {
                let line = null_line();
                assert(line_clean(line));
                assert(p[0] == e[0]);
                assert(p.subrange(1, k) =~= (line + crlf()).take(k - 1));
                lemma_crlf_prefix_none(line, k - 1);
            },
            FrameModel::Bulk(body) => {
                let n = body.len() as int;
                lemma_len_bytes_roundtrip(n);
                let line = dec_digits(n);
                lemma_digits_clean(line);
                let i = line.len() as int;
                assert(p[0] == e[0]);
                if k - 1 <= i + 1 {
                    assert(p.subrange(1, k) =~= (line + crlf()).take(k - 1));
                    lemma_crlf_prefix_none(line, k - 1);
                } else {
                    let partial = (body + crlf()).take(k - 3 - i);
                    assert(p.subrange(1, k) =~= line + crlf() + partial);
                    lemma_crlf_after_line(line, partial);
                    assert(p.subrange(1, k).take(i) =~= line);
                    let after = p.subrange(1, k).subrange(i + 2, k - 1);
                    assert(after =~= partial);
                    assert(after.len() == k - 3 - i);
                    assert(k - 3 - i < n + 2);
                }
            },
            FrameModel::Array(elems) => {
                let n = elems.len() as int;
                lemma_len_bytes_roundtrip(n);
                let line = dec_digits(n);
                lemma_digits_clean(line);
                let i = line.len() as int;
                let body = spec_encode_elems(elems);
                assert(p[0] == e[0]);
                if k - 1 <= i + 1 {
                    assert(p.subrange(1, k) =~= (line + crlf()).take(k - 1));
                    lemma_crlf_prefix_none(line, k - 1);
                } else {
                    let kp = k - 3 - i;
                    assert(0 <= kp < body.len());
                    let partial = body.take(kp);
                    assert(p.subrange(1, k) =~= line + crlf() + partial);
                    lemma_crlf_after_line(line, partial);
                    assert(p.subrange(1, k).take(i) =~= line);
                    assert(1 <= 3 + i <= p.len());
                    assert(p.subrange(3 + i, k) =~= partial);
                    lemma_prefix_incomplete_elems(elems, kp);
                }
            },
        }
    }
}

/// A strict prefix of the concatenated encodings of well-formed frames is
/// reported incomplete.
pub proof fn lemma_prefix_incomplete_elems(elems: Seq<FrameModel>, kp: int)
    requires
        forall|i: int| 0 <= i < elems.len() ==> frame_wf(#[trigger] elems[i]),
        0 <= kp < spec_encode_elems(elems).len(),
    ensures
        spec_decode_elems(spec_encode_elems(elems).take(kp), elems.len() as int)
            == SpecElems::Incomplete,
    decreases elems, 1int,
{
    if elems.len() == 0 {
    } else {
        let head = elems[0];
        let rest_elems = elems.subrange(1, elems.len() as int);
        let e0 = spec_encode(head);
        let erest = spec_encode_elems(rest_elems);
        let body = spec_encode_elems(elems);
        let b = body.take(kp);
        lemma_encode_len(head);
        assert(body =~= e0 + erest);
        if kp < e0.len() {
            assert(b =~= e0.take(kp));
            lemma_prefix_incomplete(head, kp);
        } else {
            let kr = kp - e0.len();
            assert(b =~= e0 + erest.take(kr));
            lemma_decode_encode(head, erest.take(kr));
            let c = e0.len() as int;
            assert(1 <= c <= b.len());
            assert(b.subrange(c, b.len() as int) =~= erest.take(kr));
            assert(0 <= kr < erest.len());
            lemma_prefix_incomplete_elems(rest_elems, kr);
        }
    }
}

} // verus!
