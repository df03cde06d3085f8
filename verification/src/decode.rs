//! The resumable frame decoder.
//!
//! `spec_decode` is the mathematical parser: on any byte string it yields
//! `Ready` with the frame and the exact number of bytes it occupies,
//! `Incomplete` when the bytes can only be a proper prefix of a frame, or
//! `Malformed` when no extension of the bytes is a frame.  The executable
//! `decode` agrees with `spec_decode` on all three outcomes, so it consumes
//! nothing on a partial frame and can simply be retried on a grown buffer.

use vstd::prelude::*;

use crate::digits::{all_digits, digits_val, pow10, lemma_digits_val_bound, lemma_pow10_values};
use crate::encode::{MARK_ARRAY, MARK_BULK, MARK_ERROR, MARK_INTEGER, MARK_SIMPLE};
use crate::frame::{frame_wf, line_char, Frame, FrameModel, CR, LF, MAX_LEN};

verus! {

/// Why a byte string can never grow into a frame.
#[derive(Clone, Copy, Debug, PartialEq, Eq, Structural)]
pub enum DecodeError {
    /// The first byte is not one of the five frame markers.
    UnknownMarker,
    /// A `Simple` or `Error` line holds a byte that is not line-safe text.
    BadText,
    /// An `Integer` line is not an optionally signed decimal of at most
    /// nineteen digits, or its value does not fit a signed 64-bit integer.
    BadInteger,
    /// A length line is not an unsigned decimal of at most ten digits with a
    /// value of at most `MAX_LEN` (the null marker `-1` excepted).
    BadLength,
    /// The two bytes after a bulk payload are not the line terminator.
    MissingTerminator,
}

/// What the mathematical parser says about a byte string.
pub enum SpecOutcome {
    /// A complete frame occupies exactly the first `c` bytes.
    Ready(FrameModel, int),
    /// The bytes can only be a proper prefix of some frame.
    Incomplete,
    /// No extension of the bytes is a frame.
    Malformed(DecodeError),
}

/// What the mathematical parser says about a run of `n` consecutive frames.
pub enum SpecElems {
    Ready(Seq<FrameModel>, int),
    Incomplete,
    Malformed(DecodeError),
}

/// The position of the first line terminator in `b`, if any.
pub open spec fn find_crlf(b: Seq<u8>) -> Option<int>
    decreases b.len(),
{
    if b.len() < 2 {
        Option::None
    } else if b[0] == CR && b[1] == LF {
        Option::Some(0)
    } else {
        match find_crlf(b.subrange(1, b.len() as int)) {
            Option::Some(i) => Option::Some(i + 1),
            Option::None => Option::None,
        }
    }
}

/// Whether every byte of a line is line-safe single-byte text.
pub open spec fn line_ok(line: Seq<u8>) -> bool {
    forall|i: int| 0 <= i < line.len() ==> ((#[trigger] line[i]) < 128 && line[i] != CR
        && line[i] != LF)
}

/// The characters of a line of single-byte text.
pub open spec fn chars_of(line: Seq<u8>) -> Seq<char> {
    Seq::new(line.len(), |i: int| line[i] as char)
}

/// The value of an integer line: an optional minus sign, then one to
/// nineteen digits, in the signed 64-bit range.
pub open spec fn parse_int(line: Seq<u8>) -> Result<int, DecodeError> {
    let negative = line.len() >= 1 && line[0] == 45;
    let ds = if negative {
        line.subrange(1, line.len() as int)
    } else {
        line
    };
    if ds.len() < 1 || ds.len() > 19 || !all_digits(ds) {
        Result::Err(DecodeError::BadInteger)
    } else {
        let v = if negative {
            -digits_val(ds)
        } else {
            digits_val(ds)
        };
        if i64::MIN <= v <= i64::MAX {
            Result::Ok(v)
        } else {
            Result::Err(DecodeError::BadInteger)
        }
    }
}

/// The value of a length line: one to ten digits, at most `MAX_LEN`.
pub open spec fn parse_len(line: Seq<u8>) -> Result<int, DecodeError> {
    if line.len() < 1 || line.len() > 10 || !all_digits(line) {
        Result::Err(DecodeError::BadLength)
    } else if digits_val(line) > MAX_LEN {
        Result::Err(DecodeError::BadLength)
    } else {
        Result::Ok(digits_val(line))
    }
}

/// The null bulk length line, `-1`.
pub open spec fn null_line() -> Seq<u8> {
    seq![45u8, 49u8]
}

/// The mathematical parser for one frame at the head of `b`.
pub open spec fn spec_decode(b: Seq<u8>) -> SpecOutcome
    decreases b.len(), 0int, 0int,
{
    if b.len() == 0 {
        SpecOutcome::Incomplete
    } else {
        let rest = b.subrange(1, b.len() as int);
        if b[0] == MARK_SIMPLE || b[0] == MARK_ERROR {
            match find_crlf(rest) {
                Option::None => SpecOutcome::Incomplete,
                Option::Some(i) => {
                    let line = rest.take(i);
                    if line_ok(line) {
                        if b[0] == MARK_SIMPLE {
                            SpecOutcome::Ready(FrameModel::Simple(chars_of(line)), 3 + i)
                        } else {
                            SpecOutcome::Ready(FrameModel::Error(chars_of(line)), 3 + i)
                        }
                    } else {
                        SpecOutcome::Malformed(DecodeError::BadText)
                    }
                },
            }
        } else if b[0] == MARK_INTEGER {
            match find_crlf(rest) {
                Option::None => SpecOutcome::Incomplete,
                Option::Some(i) => match parse_int(rest.take(i)) {
                    Result::Ok(v) => SpecOutcome::Ready(FrameModel::Integer(v), 3 + i),
                    Result::Err(e) => SpecOutcome::Malformed(e),
                },
            }
        } else if b[0] == MARK_BULK {
            match find_crlf(rest) {
                Option::None => SpecOutcome::Incomplete,
                Option::Some(i) => {
                    let line = rest.take(i);
                    if line == null_line() {
                        SpecOutcome::Ready(FrameModel::Null, 3 + i)
                    } else {
                        match parse_len(line) {
                            Result::Err(e) => SpecOutcome::Malformed(e),
                            Result::Ok(n) => {
                                let after = rest.subrange(i + 2, rest.len() as int);
                                if after.len() < n + 2 {
                                    SpecOutcome::Incomplete
                                } else if after[n] == CR && after[n + 1] == LF {
                                    SpecOutcome::Ready(
                                        FrameModel::Bulk(after.take(n)),
                                        3 + i + n + 2,
                                    )
                                } else {
                                    SpecOutcome::Malformed(DecodeError::MissingTerminator)
                                }
                            },
                        }
                    }
                },
            }
        } else if b[0] == MARK_ARRAY {
            match find_crlf(rest) {
                Option::None => SpecOutcome::Incomplete,
                Option::Some(i) => match parse_len(rest.take(i)) {
                    Result::Err(e) => SpecOutcome::Malformed(e),
                    Result::Ok(n) => {
                        let k = if 1 <= 3 + i && 3 + i <= b.len() {
                            3 + i
                        } else {
                            b.len() as int
                        };
                        match spec_decode_elems(b.subrange(k, b.len() as int), n) {
                            SpecElems::Ready(fs, c) => SpecOutcome::Ready(
                                FrameModel::Array(fs),
                                k + c,
                            ),
                            SpecElems::Incomplete => SpecOutcome::Incomplete,
                            SpecElems::Malformed(e) => SpecOutcome::Malformed(e),
                        }
                    },
                },
            }
        } else {
            SpecOutcome::Malformed(DecodeError::UnknownMarker)
        }
    }
}

/// The mathematical parser for `n` consecutive frames at the head of `b`.
pub open spec fn spec_decode_elems(b: Seq<u8>, n: int) -> SpecElems
    decreases b.len(), 1int, n,
{
    if n <= 0 {
        SpecElems::Ready(Seq::empty(), 0)
    } else {
        match spec_decode(b) {
            SpecOutcome::Ready(f, c) => {
                let k = if 1 <= c && c <= b.len() {
                    c
                } else {
                    b.len() as int
                };
                if b.len() == 0 {
                    SpecElems::Incomplete
                } else {
                    match spec_decode_elems(b.subrange(k, b.len() as int), n - 1) {
                        SpecElems::Ready(fs, c2) => SpecElems::Ready(seq![f] + fs, k + c2),
                        SpecElems::Incomplete => SpecElems::Incomplete,
                        SpecElems::Malformed(e) => SpecElems::Malformed(e),
                    }
                }
            },
            SpecOutcome::Incomplete => SpecElems::Incomplete,
            SpecOutcome::Malformed(e) => SpecElems::Malformed(e),
        }
    }
}

/// Where `find_crlf` answers, a terminator stands, and none stands earlier;
/// where it does not, no terminator stands at all.
pub proof fn lemma_find_crlf(b: Seq<u8>)
    ensures
        match find_crlf(b) {
            Option::Some(i) => 0 <= i && i + 2 <= b.len() && b[i] == CR && b[i + 1] == LF
                && (forall|j: int| 0 <= j < i ==> !((#[trigger] b[j]) == CR && b[j + 1] == LF)),
            Option::None => forall|j: int|
                0 <= j && j + 2 <= b.len() ==> !((#[trigger] b[j]) == CR && b[j + 1] == LF),
        },
    decreases b.len(),
{
    if b.len() < 2 {
    } else if b[0] == CR && b[1] == LF {
    } else {
        let t = b.subrange(1, b.len() as int);
        lemma_find_crlf(t);
        match find_crlf(t) {
            Option::Some(it) => {
                assert(t[it] == b[it + 1] && t[it + 1] == b[it + 2]);
                assert forall|j: int| 0 <= j < it + 1 implies !((#[trigger] b[j]) == CR && b[j
                    + 1] == LF) by {
                    if j > 0 {
                        assert(t[j - 1] == b[j] && t[j] == b[j + 1]);
                    }
                }
            },
            Option::None => {
                assert forall|j: int| 0 <= j && j + 2 <= b.len() implies !((#[trigger] b[j])
                    == CR && b[j + 1] == LF) by {
                    if j > 0 {
                        assert(t[j - 1] == b[j] && t[j] == b[j + 1]);
                    }
                }
            },
        }
    }
}

/// A terminator at a minimal position pins `find_crlf` down.
pub proof fn lemma_find_crlf_at(b: Seq<u8>, i: int)
    requires
        0 <= i,
        i + 2 <= b.len(),
        b[i] == CR,
        b[i + 1] == LF,
        forall|j: int| 0 <= j < i ==> !((#[trigger] b[j]) == CR && b[j + 1] == LF),
    ensures
        find_crlf(b) == Option::Some(i),
    decreases b.len(),
{
    if i == 0 {
    } else {
        let t = b.subrange(1, b.len() as int);
        assert(t[i - 1] == b[i] && t[i] == b[i + 1]);
        assert forall|j: int| 0 <= j < i - 1 implies !((#[trigger] t[j]) == CR && t[j + 1]
            == LF) by {
            assert(t[j] == b[j + 1] && t[j + 1] == b[j + 2]);
        }
        lemma_find_crlf_at(t, i - 1);
    }
}

/// With no terminator present, `find_crlf` finds none.
pub proof fn lemma_find_crlf_none(b: Seq<u8>)
    requires
        forall|j: int| 0 <= j && j + 2 <= b.len() ==> !((#[trigger] b[j]) == CR && b[j + 1] == LF),
    ensures
        find_crlf(b) == Option::None::<int>,
    decreases b.len(),
{
    if b.len() >= 2 {
        let t = b.subrange(1, b.len() as int);
        assert forall|j: int| 0 <= j && j + 2 <= t.len() implies !((#[trigger] t[j]) == CR
            && t[j + 1] == LF) by {
            assert(t[j] == b[j + 1] && t[j + 1] == b[j + 2]);
        }
        lemma_find_crlf_none(t);
    }
}

/// A ready frame occupies at least one and at most all of the bytes.
pub proof fn lemma_decode_consumed(b: Seq<u8>)
    ensures
        spec_decode(b) matches SpecOutcome::Ready(f, c) ==> 1 <= c <= b.len(),
    decreases b.len(), 0int, 0int,
{
    if b.len() > 0 {
        let rest = b.subrange(1, b.len() as int);
        lemma_find_crlf(rest);
        match find_crlf(rest) {
            Option::Some(i) => {
                let line = rest.take(i);
                if b[0] == MARK_BULK && line != null_line() {
                    match parse_len(line) {
                        Result::Ok(n) => {
                            lemma_digits_val_bound(line);
                        },
                        Result::Err(_) => {},
                    }
                }
                if b[0] == MARK_ARRAY {
                    match parse_len(line) {
                        Result::Ok(n) => {
                            lemma_digits_val_bound(line);
                            lemma_decode_elems_consumed(b.subrange(3 + i, b.len() as int), n);
                        },
                        Result::Err(_) => {},
                    }
                }
            },
            Option::None => {},
        }
    }
}

/// A frame the decoder hands out is well-formed: its lines are line-safe
/// text, its integer is in range, and its payloads and arrays are bounded.
pub proof fn lemma_decode_wf(b: Seq<u8>)
    ensures
        spec_decode(b) matches SpecOutcome::Ready(f, c) ==> frame_wf(f),
    decreases b.len(), 0int, 0int,
{
    if b.len() > 0 {
        let rest = b.subrange(1, b.len() as int);
        lemma_find_crlf(rest);
        match find_crlf(rest) {
            Option::Some(i) => {
                let line = rest.take(i);
                if (b[0] == MARK_SIMPLE || b[0] == MARK_ERROR) && line_ok(line) {
                    assert forall|t: int| 0 <= t < line.len() implies line_char(
                        #[trigger] chars_of(line)[t],
                    ) by {
                        assert(line[t] < 128 && line[t] != CR && line[t] != LF);
                    }
                }
                if b[0] == MARK_BULK && line != null_line() {
                    match parse_len(line) {
                        Result::Ok(n) => {
                            lemma_digits_val_bound(line);
                        },
                        Result::Err(_) => {},
                    }
                }
                if b[0] == MARK_ARRAY {
                    match parse_len(line) {
                        Result::Ok(n) => {
                            lemma_digits_val_bound(line);
                            let inner = b.subrange(3 + i, b.len() as int);
                            lemma_decode_elems_consumed(inner, n);
                            lemma_decode_elems_wf(inner, n);
                        },
                        Result::Err(_) => {},
                    }
                }
            },
            Option::None => {},
        }
    }
}

/// Every frame in a ready run is well-formed.
pub proof fn lemma_decode_elems_wf(b: Seq<u8>, n: int)
    ensures
        spec_decode_elems(b, n) matches SpecElems::Ready(fs, c) ==> forall|i: int|
            0 <= i < fs.len() ==> frame_wf(#[trigger] fs[i]),
    decreases b.len(), 1int, n,
{
    if n > 0 {
        lemma_decode_consumed(b);
        lemma_decode_wf(b);
        match spec_decode(b) {
            SpecOutcome::Ready(f, c) => {
                if b.len() > 0 {
                    let inner = b.subrange(c, b.len() as int);
                    lemma_decode_elems_wf(inner, n - 1);
                    match spec_decode_elems(inner, n - 1) {
                        SpecElems::Ready(fs2, c2) => {
                            assert forall|i: int|
                                0 <= i < fs2.len() + 1 implies frame_wf(
                                #[trigger] (seq![f] + fs2)[i],
                            ) by {
                                if i > 0 {
                                    assert((seq![f] + fs2)[i] == fs2[i - 1]);
                                }
                            }
                        },
                        _ => {},
                    }
                }
            },
            _ => {},
        }
    }
}

/// A ready run of frames occupies at most all of the bytes, and yields one
/// model per requested frame.
pub proof fn lemma_decode_elems_consumed(b: Seq<u8>, n: int)
    ensures
        spec_decode_elems(b, n) matches SpecElems::Ready(fs, c) ==> 0 <= c <= b.len()
            && fs.len() == (if n <= 0 {
            0
        } else {
            n
        }),
    decreases b.len(), 1int, n,
{
    if n > 0 {
        lemma_decode_consumed(b);
        match spec_decode(b) {
            SpecOutcome::Ready(f, c) => {
                if b.len() > 0 {
                    lemma_decode_elems_consumed(b.subrange(c, b.len() as int), n - 1);
                }
            },
            _ => {},
        }
    }
}

} // verus!

use vstd::slice::{slice_subrange, slice_to_vec};

verus! {

/// What one decoding attempt on a buffer yields.
pub enum DecodeOutcome {
    /// A complete, valid frame, and the number of bytes it occupied.
    Ready(Frame, usize),
    /// The buffer holds only a proper prefix of a frame; read more bytes.
    Incomplete,
    /// The buffer can never grow into a frame.
    Malformed(DecodeError),
}

/// Whether the executable outcome agrees with the mathematical one.
pub open spec fn outcome_matches(r: DecodeOutcome, s: SpecOutcome) -> bool {
    match r {
        DecodeOutcome::Ready(f, c) => match s {
            SpecOutcome::Ready(fm, cm) => fm == f@ && cm == c as int,
            _ => false,
        },
        DecodeOutcome::Incomplete => s is Incomplete,
        DecodeOutcome::Malformed(e) => match s {
            SpecOutcome::Malformed(e2) => e == e2,
            _ => false,
        },
    }
}

enum ElemsOut {
    Ready(Vec<Frame>, usize),
    Incomplete,
    Malformed(DecodeError),
}

spec fn elems_matches(r: ElemsOut, s: SpecElems) -> bool {
    match r {
        ElemsOut::Ready(v, c) => match s {
            SpecElems::Ready(fs, cm) => fs == crate::frame::frame_models(v@) && cm == c as int,
            _ => false,
        },
        ElemsOut::Incomplete => s is Incomplete,
        ElemsOut::Malformed(e) => match s {
            SpecElems::Malformed(e2) => e == e2,
            _ => false,
        },
    }
}

/// Relies on `String::from_utf8`: ASCII bytes are valid UTF-8 and decode to
/// exactly one character per byte, with equal code points.
#[verifier::external_body]
pub(crate) fn ascii_string(bytes: Vec<u8>) -> (r: String)
    requires
        forall|i: int| 0 <= i < bytes@.len() ==> bytes@[i] < 128,
    ensures
        r@ == chars_of(bytes@),
{
    String::from_utf8(bytes).unwrap()
}

/// The position, relative to `start`, of the first line terminator at or
/// after `start`, exactly as `find_crlf` sees the suffix.
fn find_line_end(b: &Vec<u8>, start: usize) -> (r: Option<usize>)
    requires
        start <= b@.len(),
    ensures
        match r {
            Option::Some(j) => find_crlf(b@.skip(start as int)) == Option::Some(j as int),
            Option::None => find_crlf(b@.skip(start as int)) == Option::None::<int>,
        },
{
    let ghost s = b@.skip(start as int);
    if b.len() - start < 2 {
        proof {
            lemma_find_crlf_none(s);
        }
        return Option::None;
    }
    let stop = b.len() - 1;
    let mut idx = start;
    while idx < stop
        invariant
            start <= idx <= stop,
            stop == b@.len() - 1,
            start <= b@.len(),
            s == b@.skip(start as int),
            forall|j: int|
                0 <= j < idx - start ==> !((#[trigger] s[j]) == CR && s[j + 1] == LF),
        decreases stop - idx,
    {
        if b[idx] == CR && b[idx + 1] == LF {
            proof {
                assert(s[idx - start] == b@[idx as int]);
                assert(s[idx - start + 1] == b@[idx as int + 1]);
                lemma_find_crlf_at(s, idx - start);
            }
            return Option::Some(idx - start);
        }
        proof {
            assert(s[idx - start] == b@[idx as int]);
            assert(s[idx - start + 1] == b@[idx as int + 1]);
        }
        idx += 1;
    }
    proof {
        lemma_find_crlf_none(s);
    }
    Option::None
}

/// Reads a run of digit bytes as a decimal number.
fn read_digits(b: &Vec<u8>, start: usize, end: usize) -> (r: Option<u64>)
    requires
        start <= end <= b@.len(),
        1 <= end - start <= 19,
    ensures
        match r {
            Option::Some(acc) => all_digits(b@.subrange(start as int, end as int)) && acc
                == digits_val(b@.subrange(start as int, end as int)),
            Option::None => !all_digits(b@.subrange(start as int, end as int)),
        },
{
    let ghost line = b@.subrange(start as int, end as int);
    proof {
        lemma_pow10_values();
    }
    let mut acc: u64 = 0;
    let mut j = start;
    while j < end
        invariant
            start <= j <= end <= b@.len(),
            end - start <= 19,
            line == b@.subrange(start as int, end as int),
            all_digits(line.take(j - start)),
            acc == digits_val(line.take(j - start)),
            acc < pow10(19),
            pow10(19) == 10000000000000000000,
        decreases end - j,
    {
        let d = b[j];
        if d < 48 || d > 57 {
            proof {
                assert(line[j - start] == b@[j as int]);
            }
            return Option::None;
        }
        proof {
            assert(line[j - start] == b@[j as int]);
            lemma_digits_val_bound(line.take(j - start));
            crate::digits::lemma_pow10_mono(j - start, 18);
            assert(pow10(19) == 10 * pow10(18));
            assert(acc < pow10(18));
        }
        let d0: u64 = (d - 48) as u64;
        acc = acc * 10 + d0;
        proof {
            let t = line.take(j - start + 1);
            assert(t.drop_last() =~= line.take(j - start));
            assert(t.last() == b@[j as int]);
            assert(acc == digits_val(t));
            assert forall|i: int| 0 <= i < t.len() implies crate::digits::is_digit(
                #[trigger] t[i],
            ) by {
                if i < j - start {
                    assert(line.take(j - start)[i] == t[i]);
                } else {
                    assert(t[i] == line[j - start]);
                }
            }
        }
        j += 1;
    }
    proof {
        assert(line.take(end - start) =~= line);
    }
    Option::Some(acc)
}

} // verus!

verus! {

/// The value of a length line, exactly as `parse_len` reads it.
fn parse_len_at(b: &Vec<u8>, start: usize, end: usize) -> (r: Result<usize, DecodeError>)
    requires
        start <= end <= b@.len(),
    ensures
        (match r {
            Result::Ok(n) => parse_len(b@.subrange(start as int, end as int))
                == Result::<int, DecodeError>::Ok(n as int) && n <= MAX_LEN,
            Result::Err(e) => parse_len(b@.subrange(start as int, end as int))
                == Result::<int, DecodeError>::Err(e),
        }),
{
    let ghost line = b@.subrange(start as int, end as int);
    let len = end - start;
    if len < 1 || len > 10 {
        return Result::Err(DecodeError::BadLength);
    }
    match read_digits(b, start, end) {
        Option::None => Result::Err(DecodeError::BadLength),
        Option::Some(acc) => {
            proof {
                lemma_pow10_values();
                lemma_digits_val_bound(line);
                crate::digits::lemma_pow10_mono(line.len() as int, 10);
            }
            if acc > (MAX_LEN as u64) {
                Result::Err(DecodeError::BadLength)
            } else {
                Result::Ok(acc as usize)
            }
        },
    }
}

/// The value of an integer line, exactly as `parse_int` reads it.
fn parse_int_at(b: &Vec<u8>, start: usize, end: usize) -> (r: Result<i64, DecodeError>)
    requires
        start <= end <= b@.len(),
    ensures
        (match r {
            Result::Ok(v) => parse_int(b@.subrange(start as int, end as int))
                == Result::<int, DecodeError>::Ok(v as int),
            Result::Err(e) => parse_int(b@.subrange(start as int, end as int))
                == Result::<int, DecodeError>::Err(e),
        }),
{
    let ghost line = b@.subrange(start as int, end as int);
    let negative = end > start && b[start] == 45;
    let ds_start = if negative {
        start + 1
    } else {
        start
    };
    let ghost ds = if negative {
        line.subrange(1, line.len() as int)
    } else {
        line
    };
    proof {
        assert(ds =~= b@.subrange(ds_start as int, end as int));
    }
    let dlen = end - ds_start;
    if dlen < 1 || dlen > 19 {
        return Result::Err(DecodeError::BadInteger);
    }
    match read_digits(b, ds_start, end) {
        Option::None => Result::Err(DecodeError::BadInteger),
        Option::Some(acc) => {
            proof {
                lemma_pow10_values();
                lemma_digits_val_bound(ds);
                crate::digits::lemma_pow10_mono(ds.len() as int, 19);
            }
            if negative {
                if acc > 9223372036854775808u64 {
                    Result::Err(DecodeError::BadInteger)
                } else if acc == 9223372036854775808u64 {
                    Result::Ok(i64::MIN)
                } else {
                    Result::Ok(-(acc as i64))
                }
            } else {
                if acc > 9223372036854775807u64 {
                    Result::Err(DecodeError::BadInteger)
                } else {
                    Result::Ok(acc as i64)
                }
            }
        },
    }
}

/// Decodes one frame from the bytes of `b` at and after `pos`, exactly as
/// `spec_decode` reads that suffix.
#[verifier::loop_isolation(false)]
#[verifier::rlimit(100)]
fn decode_at(b: &Vec<u8>, pos: usize) -> (r: DecodeOutcome)
    requires
        pos <= b@.len(),
    ensures
        outcome_matches(r, spec_decode(b@.skip(pos as int))),
    decreases b@.len() - pos, 0int, 0int,
{
    let ghost s = b@.skip(pos as int);
    if pos == b.len() {
        return DecodeOutcome::Incomplete;
    }
    let marker = b[pos];
    let ghost rest = s.subrange(1, s.len() as int);
    proof {
        assert(marker == s[0]);
        assert(rest =~= b@.skip(pos as int + 1));
        lemma_find_crlf(rest);
    }
    if marker == MARK_SIMPLE || marker == MARK_ERROR {
        match find_line_end(b, pos + 1) {
            Option::None => DecodeOutcome::Incomplete,
            Option::Some(i) => {
                let ghost line = rest.take(i as int);
                proof {
                    assert(line =~= b@.subrange(pos + 1 as int, pos + 1 + i as int));
                }
                let mut j: usize = 0;
                while j < i
                    invariant
                        0 <= j <= i,
                        forall|t: int|
                            0 <= t < j ==> ((#[trigger] line[t]) < 128 && line[t] != CR
                                && line[t] != LF),
                    decreases i - j,
                {
                    let d = b[pos + 1 + j];
                    proof {
                        assert(line[j as int] == d);
                    }
                    if d >= 128 || d == CR || d == LF {
                        assert(!line_ok(line));
                        return DecodeOutcome::Malformed(DecodeError::BadText);
                    }
                    j += 1;
                }
                assert(line_ok(line));
                let sl = slice_subrange(b.as_slice(), pos + 1, pos + 1 + i);
                let bytes = slice_to_vec(sl);
                let text = ascii_string(bytes);
                proof {
                    assert(text@ =~= chars_of(line));
                }
                if marker == MARK_SIMPLE {
                    DecodeOutcome::Ready(Frame::Simple(text), i + 3)
                } else {
                    DecodeOutcome::Ready(Frame::Error(text), i + 3)
                }
            },
        }
    } else if marker == MARK_INTEGER {
        match find_line_end(b, pos + 1) {
            Option::None => DecodeOutcome::Incomplete,
            Option::Some(i) => {
                proof {
                    assert(rest.take(i as int) =~= b@.subrange(
                        pos + 1 as int,
                        pos + 1 + i as int,
                    ));
                }
                match parse_int_at(b, pos + 1, pos + 1 + i) {
                    Result::Ok(v) => DecodeOutcome::Ready(Frame::Integer(v), i + 3),
                    Result::Err(e) => DecodeOutcome::Malformed(e),
                }
            },
        }
    } else if marker == MARK_BULK {
        match find_line_end(b, pos + 1) {
            Option::None => DecodeOutcome::Incomplete,
            Option::Some(i) => {
                let ghost line = rest.take(i as int);
                proof {
                    assert(line =~= b@.subrange(pos + 1 as int, pos + 1 + i as int));
                }
                if i == 2 && b[pos + 1] == 45 && b[pos + 2] == 49 {
                    proof {
                        assert(line =~= null_line());
                    }
                    DecodeOutcome::Ready(Frame::Null, i + 3)
                } else {
                    proof {
                        if line == null_line() {
                            assert(line.len() == 2);
                            assert(line[0] == 45 && line[1] == 49);
                            assert(line[0] == b@[pos + 1 as int]);
                            assert(line[1] == b@[pos + 2 as int]);
                        }
                    }
                    match parse_len_at(b, pos + 1, pos + 1 + i) {
                        Result::Err(e) => DecodeOutcome::Malformed(e),
                        Result::Ok(n) => {
                            let ghost after = rest.subrange(i + 2 as int, rest.len() as int);
                            let avail = b.len() - (pos + 3 + i);
                            proof {
                                assert(after.len() == avail as int);
                            }
                            if avail < n + 2 {
                                DecodeOutcome::Incomplete
                            } else {
                                proof {
                                    assert(after[n as int] == b@[pos + 3 + i + n as int]);
                                    assert(after[n + 1 as int] == b@[pos + 3 + i + n
                                        + 1 as int]);
                                }
                                if b[pos + 3 + i + n] == CR && b[pos + 3 + i + n + 1] == LF {
                                    let sl = slice_subrange(
                                        b.as_slice(),
                                        pos + 3 + i,
                                        pos + 3 + i + n,
                                    );
                                    let payload = slice_to_vec(sl);
                                    proof {
                                        assert(payload@ =~= after.take(n as int));
                                    }
                                    DecodeOutcome::Ready(Frame::Bulk(payload), i + n + 5)
                                } else {
                                    DecodeOutcome::Malformed(DecodeError::MissingTerminator)
                                }
                            }
                        },
                    }
                }
            },
        }
    } else if marker == MARK_ARRAY {
        match find_line_end(b, pos + 1) {
            Option::None => DecodeOutcome::Incomplete,
            Option::Some(i) => {
                proof {
                    assert(rest.take(i as int) =~= b@.subrange(
                        pos + 1 as int,
                        pos + 1 + i as int,
                    ));
                }
                match parse_len_at(b, pos + 1, pos + 1 + i) {
                    Result::Err(e) => DecodeOutcome::Malformed(e),
                    Result::Ok(n) => {
                        proof {
                            assert(s.subrange(3 + i as int, s.len() as int) =~= b@.skip(pos + 3
                                + i as int));
                        }
                        match decode_elems_at(b, pos + 3 + i, n) {
                            ElemsOut::Ready(frames, c2) => {
                                proof {
                                    lemma_decode_elems_consumed(
                                        b@.skip(pos + 3 + i as int),
                                        n as int,
                                    );
                                }
                                DecodeOutcome::Ready(Frame::Array(frames), i + 3 + c2)
                            },
                            ElemsOut::Incomplete => DecodeOutcome::Incomplete,
                            ElemsOut::Malformed(e) => DecodeOutcome::Malformed(e),
                        }
                    },
                }
            },
        }
    } else {
        DecodeOutcome::Malformed(DecodeError::UnknownMarker)
    }
}

/// Decodes `n` consecutive frames from the bytes of `b` at and after `pos`,
/// exactly as `spec_decode_elems` reads that suffix.
fn decode_elems_at(b: &Vec<u8>, pos: usize, n: usize) -> (r: ElemsOut)
    requires
        pos <= b@.len(),
    ensures
        elems_matches(r, spec_decode_elems(b@.skip(pos as int), n as int)),
    decreases b@.len() - pos, 1int, n as int,
{
    let ghost s = b@.skip(pos as int);
    let blen = b.len();
    if n == 0 {
        return ElemsOut::Ready(Vec::new(), 0);
    }
    match decode_at(b, pos) {
        DecodeOutcome::Ready(f, c) => {
            proof {
                lemma_decode_consumed(s);
                assert(1 <= c as int <= s.len());
                assert(pos + c <= blen);
                assert(s.subrange(c as int, s.len() as int) =~= b@.skip(pos + c as int));
            }
            match decode_elems_at(b, pos + c, n - 1) {
                ElemsOut::Ready(mut frames, c2) => {
                    proof {
                        lemma_decode_elems_consumed(b@.skip(pos + c as int), (n - 1) as int);
                    }
                    let ghost before = frames@;
                    frames.insert(0, f);
                    proof {
                        assert(frames@ =~= seq![f] + before);
                        crate::frame::lemma_frame_models_cons(f, before);
                    }
                    proof {
                        assert(c + c2 <= blen);
                    }
                    ElemsOut::Ready(frames, c + c2)
                },
                ElemsOut::Incomplete => ElemsOut::Incomplete,
                ElemsOut::Malformed(e) => ElemsOut::Malformed(e),
            }
        },
        DecodeOutcome::Incomplete => ElemsOut::Incomplete,
        DecodeOutcome::Malformed(e) => ElemsOut::Malformed(e),
    }
}

impl Frame {
    /// One decoding attempt on `buffer`: a complete frame and its size, a
    /// report that the buffer holds only a frame prefix, or a report that the
    /// buffer can never grow into a frame — exactly as `spec_decode` reads
    /// the buffer, so nothing is consumed until a whole valid frame is there.
    pub fn decode(buffer: &Vec<u8>) -> (r: DecodeOutcome)
        ensures
            outcome_matches(r, spec_decode(buffer@)),
            r matches DecodeOutcome::Ready(f, c) ==> frame_wf(f@),
    {
        let r = decode_at(buffer, 0);
        proof {
            assert(buffer@.skip(0) =~= buffer@);
            lemma_decode_wf(buffer@);
        }
        r
    }
}

} // verus!
