//! A minimal in-memory key-value store spoken over a length-framed binary
//! wire protocol: a typed wire value (`Frame`) with its encoding and a
//! resumable decoder, a command layer (`Get` / `Set`), and a shared store.
//! All logic here is verified; socket I/O lives outside the library.

pub mod command;
pub mod decode;
pub mod decoder;
pub mod digits;
pub mod encode;
pub mod frame;
pub mod handler;
pub mod roundtrip;
pub mod store;

pub use command::{Command, CommandError};
pub use decode::{DecodeError, DecodeOutcome};
pub use decoder::{FrameDecoder, ReadStep};
pub use encode::encode;
pub use frame::Frame;
pub use handler::{apply, handle_frame};
pub use store::Store;
