//! The command layer: interpreting a frame as a `Get` or `Set` operation.
//!
//! Only an `Array` frame is a command.  Its first element names the
//! operation, matched without regard to ASCII case; an unrecognized name is
//! the `Unknown` variant, not a failure, so the handler can answer with an
//! error frame and keep the connection alive.

use vstd::prelude::*;

use crate::decode::{chars_of, line_ok};
use crate::frame::{line_text, Frame, FrameModel};

verus! {

/// One operation against the store.
#[derive(Debug, PartialEq, Eq)]
pub enum Command {
    /// Read the value under `key`.
    Get { key: String },
    /// The SET operation: store `value` under `key`, overwriting any
    /// previous value.
    Put { key: String, value: Vec<u8> },
    /// An operation name outside the supported set.
    Unknown { name: String },
}

/// Mathematical model of a command.
pub enum CommandModel {
    Get(Seq<char>),
    Put(Seq<char>, Seq<u8>),
    Unknown(Seq<char>),
}

impl View for Command {
    type V = CommandModel;

    open spec fn view(&self) -> CommandModel {
        match self {
            Command::Get { key } => CommandModel::Get(key@),
            Command::Put { key, value } => CommandModel::Put(key@, value@),
            Command::Unknown { name } => CommandModel::Unknown(name@),
        }
    }
}

/// Why a frame is not a command.
#[derive(Clone, Copy, Debug, PartialEq, Eq, Structural)]
pub enum CommandError {
    /// The frame is not an `Array`.
    NotArray,
    /// The array has the wrong number of elements for its operation, or none.
    Arity,
    /// An element has the wrong kind: a name or key that is not line-safe
    /// text, or a value that is not a bulk payload.
    BadElement,
}

/// The text an element contributes as an operation name or key: the payload
/// of a `Simple` frame, or the bytes of a `Bulk` frame, in both cases only
/// if they are line-safe text.
pub open spec fn elem_text(f: FrameModel) -> Option<Seq<char>> {
    match f {
        FrameModel::Simple(s) => if line_text(s) {
            Option::Some(s)
        } else {
            Option::None
        },
        FrameModel::Bulk(b) => if line_ok(b) {
            Option::Some(chars_of(b))
        } else {
            Option::None
        },
        _ => Option::None,
    }
}

/// The bytes an element contributes as a value: a bulk payload.
pub open spec fn elem_bytes(f: FrameModel) -> Option<Seq<u8>> {
    match f {
        FrameModel::Bulk(b) => Option::Some(b),
        _ => Option::None,
    }
}

/// ASCII upper case of one character.
pub open spec fn upper_char(c: char) -> char {
    if 'a' <= c <= 'z' {
        ((c as u8) - 32) as char
    } else {
        c
    }
}

/// ASCII upper case of a text.
pub open spec fn upper_text(s: Seq<char>) -> Seq<char> {
    Seq::new(s.len(), |i: int| upper_char(s[i]))
}

/// The command a frame means, or why it means none.
pub open spec fn spec_from_frame(f: FrameModel) -> Result<CommandModel, CommandError> {
    match f {
        FrameModel::Array(elems) => if elems.len() < 1 {
            Result::Err(CommandError::Arity)
        } else {
            match elem_text(elems[0]) {
                Option::None => Result::Err(CommandError::BadElement),
                Option::Some(name) => if upper_text(name) == "GET"@ {
                    if elems.len() != 2 {
                        Result::Err(CommandError::Arity)
                    } else {
                        match elem_text(elems[1]) {
                            Option::None => Result::Err(CommandError::BadElement),
                            Option::Some(k) => Result::Ok(CommandModel::Get(k)),
                        }
                    }
                } else if upper_text(name) == "SET"@ {
                    if elems.len() != 3 {
                        Result::Err(CommandError::Arity)
                    } else {
                        match elem_text(elems[1]) {
                            Option::None => Result::Err(CommandError::BadElement),
                            Option::Some(k) => match elem_bytes(elems[2]) {
                                Option::None => Result::Err(CommandError::BadElement),
                                Option::Some(v) => Result::Ok(CommandModel::Put(k, v)),
                            },
                        }
                    }
                } else {
                    Result::Ok(CommandModel::Unknown(name))
                },
            }
        },
        _ => Result::Err(CommandError::NotArray),
    }
}

/// Texts inside a decoded command are line-safe.
pub open spec fn command_texts_safe(m: CommandModel) -> bool {
    match m {
        CommandModel::Get(k) => line_text(k),
        CommandModel::Put(k, _) => line_text(k),
        CommandModel::Unknown(name) => line_text(name),
    }
}

/// The text of an element, exactly as `elem_text` reads its model.
#[verifier::loop_isolation(false)]
fn text_of(f: &Frame) -> (r: Option<String>)
    ensures
        match r {
            Option::Some(t) => elem_text(f@) == Option::Some(t@) && line_text(t@),
            Option::None => elem_text(f@) is None,
        },
{
    match f {
        Frame::Simple(s) => {
            if crate::frame::text_is_line_safe(s) {
                Option::Some(s.clone())
            } else {
                Option::None
            }
        },
        Frame::Bulk(b) => {
            let mut j: usize = 0;
            while j < b.len()
                invariant
                    0 <= j <= b@.len(),
                    forall|t: int|
                        0 <= t < j ==> ((#[trigger] b@[t]) < 128 && b@[t] != crate::frame::CR
                            && b@[t] != crate::frame::LF),
                decreases b@.len() - j,
            {
                let d = b[j];
                if d >= 128 || d == crate::frame::CR || d == crate::frame::LF {
                    assert(!line_ok(b@));
                    return Option::None;
                }
                j += 1;
            }
            assert(line_ok(b@));
            let bytes = vstd::slice::slice_to_vec(b.as_slice());
            let t = crate::decode::ascii_string(bytes);
            proof {
                assert(t@ =~= chars_of(b@));
                assert forall|i: int| 0 <= i < t@.len() implies crate::frame::line_char(
                    #[trigger] t@[i],
                ) by {
                    assert(t@[i] == b@[i] as char);
                }
            }
            Option::Some(t)
        },
        _ => Option::None,
    }
}

/// The value bytes of an element, exactly as `elem_bytes` reads its model.
fn bytes_of(f: &Frame) -> (r: Option<Vec<u8>>)
    ensures
        match r {
            Option::Some(v) => elem_bytes(f@) == Option::Some(v@),
            Option::None => elem_bytes(f@) is None,
        },
{
    match f {
        Frame::Bulk(b) => Option::Some(vstd::slice::slice_to_vec(b.as_slice())),
        _ => Option::None,
    }
}

/// Whether `name`, folded to ASCII upper case, equals `target`.
#[verifier::loop_isolation(false)]
fn name_is(name: &String, target: &str) -> (r: bool)
    ensures
        r == (upper_text(name@) == target@),
{
    let ns = name.as_str();
    let n = ns.unicode_len();
    let t = target.unicode_len();
    if n != t {
        proof {
            assert(upper_text(name@).len() != target@.len());
        }
        return false;
    }
    let mut i: usize = 0;
    while i < n
        invariant
            0 <= i <= n,
            n == name@.len() == target@.len(),
            ns@ == name@,
            forall|j: int| 0 <= j < i ==> (#[trigger] upper_text(name@)[j]) == target@[j],
        decreases n - i,
    {
        let c = ns.get_char(i);
        let u: char = if 'a' <= c && c <= 'z' {
            (((c as u8) - 32) as char)
        } else {
            c
        };
        proof {
            assert(u == upper_char(name@[i as int]));
        }
        if u != target.get_char(i) {
            assert(upper_text(name@)[i as int] != target@[i as int]);
            return false;
        }
        i += 1;
    }
    proof {
        assert(upper_text(name@) =~= target@);
    }
    true
}

impl Command {
    /// The command `frame` means: exactly `spec_from_frame` of its model.
    /// Only well-shaped arrays yield a command; an unsupported operation
    /// name yields `Unknown`, never a failure.
    pub fn from_frame(frame: Frame) -> (r: Result<Command, CommandError>)
        ensures
            match r {
                Result::Ok(c) => spec_from_frame(frame@) == Result::<CommandModel,
                    CommandError>::Ok(c@) && command_texts_safe(c@),
                Result::Err(e) => spec_from_frame(frame@) == Result::<CommandModel,
                    CommandError>::Err(e),
            },
    {
        match frame {
            Frame::Array(elems) => {
                proof {
                    crate::frame::lemma_frame_models_index(elems@);
                }
                if elems.len() < 1 {
                    return Result::Err(CommandError::Arity);
                }
                let name = match text_of(&elems[0]) {
                    Option::None => {
                        return Result::Err(CommandError::BadElement);
                    },
                    Option::Some(t) => t,
                };
                if name_is(&name, "GET") {
                    if elems.len() != 2 {
                        return Result::Err(CommandError::Arity);
                    }
                    match text_of(&elems[1]) {
                        Option::None => Result::Err(CommandError::BadElement),
                        Option::Some(k) => Result::Ok(Command::Get { key: k }),
                    }
                } else if name_is(&name, "SET") {
                    if elems.len() != 3 {
                        return Result::Err(CommandError::Arity);
                    }
                    match text_of(&elems[1]) {
                        Option::None => Result::Err(CommandError::BadElement),
                        Option::Some(k) => match bytes_of(&elems[2]) {
                            Option::None => Result::Err(CommandError::BadElement),
                            Option::Some(v) => Result::Ok(Command::Put { key: k, value: v }),
                        },
                    }
                } else {
                    Result::Ok(Command::Unknown { name })
                }
            },
            _ => Result::Err(CommandError::NotArray),
        }
    }
}

} // verus!
