//! The per-connection handling step: a frame read off the wire is
//! interpreted as a command, applied to the store, and answered with exactly
//! one response frame.
//!
//! A frame that means no command — and a command naming an unsupported
//! operation — leaves the store unchanged and earns an `Error` frame, so one
//! bad command never terminates the session; only stream-level failures do.

use vstd::prelude::*;

use crate::command::{spec_from_frame, Command, CommandError, CommandModel};
use crate::frame::{Frame, FrameModel};
use crate::store::Store;
use vstd::string::StringExecFns;

verus! {

/// The text of the reply to a successful SET.
pub open spec fn ok_text() -> Seq<char> {
    "OK"@
}

/// The text of the reply to an unsupported operation, naming it.
pub open spec fn unknown_text(name: Seq<char>) -> Seq<char> {
    "ERR unknown command '"@ + name + "'"@
}

/// The text of the reply to a frame that means no command.
pub open spec fn error_text(e: CommandError) -> Seq<char> {
    match e {
        CommandError::NotArray => "ERR protocol error: expected an array"@,
        CommandError::Arity => "ERR wrong number of arguments"@,
        CommandError::BadElement => "ERR protocol error: invalid argument"@,
    }
}

/// Applies one command to the store and builds its response frame: `OK` for
/// a SET, the held value or `Null` for a GET, an error naming the operation
/// for an unknown command.  Only a SET changes the store.
pub fn apply(store: &mut Store, cmd: Command) -> (resp: Frame)
    requires
        old(store).wf(),
    ensures
        final(store).wf(),
        match cmd@ {
            CommandModel::Put(k, v) => final(store)@ == old(store)@.insert(k, v) && resp@
                == FrameModel::Simple(ok_text()),
            CommandModel::Get(k) => final(store)@ == old(store)@ && resp@ == (if old(
                store,
            )@.contains_key(k) {
                FrameModel::Bulk(old(store)@[k])
            } else {
                FrameModel::Null
            }),
            CommandModel::Unknown(name) => final(store)@ == old(store)@ && resp@
                == FrameModel::Error(unknown_text(name)),
        },
{
    match cmd {
        Command::Put { key, value } => {
            store.set(key, value);
            Frame::Simple(String::from_str("OK"))
        },
        Command::Get { key } => match store.get(&key) {
            Option::Some(v) => Frame::Bulk(v),
            Option::None => Frame::Null,
        },
        Command::Unknown { name } => {
            let text = String::from_str("ERR unknown command '").concat(name.as_str()).concat(
                "'",
            );
            Frame::Error(text)
        },
    }
}

/// One full handling step for a frame read off the wire: decode the
/// command and apply it; a frame that means no command leaves the store
/// unchanged and is answered with an `Error` frame describing the problem.
pub fn handle_frame(store: &mut Store, frame: Frame) -> (resp: Frame)
    requires
        old(store).wf(),
    ensures
        final(store).wf(),
        match spec_from_frame(frame@) {
            Result::Ok(m) => match m {
                CommandModel::Put(k, v) => final(store)@ == old(store)@.insert(k, v) && resp@
                    == FrameModel::Simple(ok_text()),
                CommandModel::Get(k) => final(store)@ == old(store)@ && resp@ == (if old(
                    store,
                )@.contains_key(k) {
                    FrameModel::Bulk(old(store)@[k])
                } else {
                    FrameModel::Null
                }),
                CommandModel::Unknown(name) => final(store)@ == old(store)@ && resp@
                    == FrameModel::Error(unknown_text(name)),
            },
            Result::Err(e) => final(store)@ == old(store)@ && resp@ == FrameModel::Error(
                error_text(e),
            ),
        },
{
    match Command::from_frame(frame) {
        Result::Ok(cmd) => apply(store, cmd),
        Result::Err(e) => {
            let text = match e {
                CommandError::NotArray => String::from_str("ERR protocol error: expected an array"),
                CommandError::Arity => String::from_str("ERR wrong number of arguments"),
                CommandError::BadElement => String::from_str(
                    "ERR protocol error: invalid argument",
                ),
            };
            Frame::Error(text)
        },
    }
}

} // verus!
