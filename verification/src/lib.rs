use vstd::prelude::*;

pub use checkout::checkout;
pub use init::init;
pub use log::log;

pub mod checkout;
pub mod init;
pub mod log;
pub mod object;
pub mod reference;
pub mod repository;

verus! {

/// The error kinds that the object database and reference layer report.
#[derive(Clone, Copy, Debug, PartialEq, Eq, Structural)]
pub enum Error {
    NotEmpty,
    NotFound,
    MalformedFraming,
    MalformedSize,
    SizeMismatch,
    UnknownKind,
    MalformedCommit,
    MalformedTree,
    MalformedRef,
    MalformedHash,
    CorruptObject,
    RefLoop,
    NotACommit,
}

} // verus!
