use vstd::prelude::*;

verus! {

/// Mathematical model of an [`Error`].
#[verifier::ext_equal]
pub enum GErr {
    InvariantViolated { reason: Seq<char> },
    MissingParent { id: u128 },
    MissingEntry { path: Seq<char> },
    WrongEntryKind { path: Seq<char> },
    UnsupportedEntry { path: Seq<char> },
}

/// A failure that aborts the current command batch immediately; nothing of
/// the failed batch is committed to the ledger.
#[derive(Debug)]
pub enum Error {
    /// A structural precondition failed, for instance a batch that did not
    /// begin with a subvolume or snapshot start command.
    InvariantViolated(&'static str),
    /// A snapshot references a subvolume identifier not yet in the ledger.
    MissingParent(u128),
    /// A mutation targets a path absent from the tree.
    MissingEntry(String),
    /// A mutation expects a file but found a directory, or the other way
    /// round.
    WrongEntryKind(String),
    /// Directory import met an entry kind it does not support (a symbolic
    /// link).
    UnsupportedEntry(String),
}

impl View for Error {
    type V = GErr;

    open spec fn view(&self) -> GErr {
        match self {
            Error::InvariantViolated(reason) => GErr::InvariantViolated { reason: reason@ },
            Error::MissingParent(id) => GErr::MissingParent { id: *id },
            Error::MissingEntry(path) => GErr::MissingEntry { path: path@ },
            Error::WrongEntryKind(path) => GErr::WrongEntryKind { path: path@ },
            Error::UnsupportedEntry(path) => GErr::UnsupportedEntry { path: path@ },
        }
    }
}

} // verus!
