//! What can be wrong with a network file.

use vstd::prelude::*;

verus! {

/// The reason why a network could not be loaded.
#[derive(Clone, Copy, PartialEq, Eq, Debug)]
pub enum Error {
    /// The data ended before the network was complete.
    UnexpectedEof,
    /// The file header names a version that is not known.
    UnsupportedVersion(u32),
    /// The data cannot belong to a network; the text says why.
    InvalidData(&'static str),
}

/// An [`Error`] with its text as a sequence of characters.
pub enum Fault {
    UnexpectedEof,
    UnsupportedVersion(u32),
    InvalidData(Seq<char>),
}

impl View for Error {
    type V = Fault;

    open spec fn view(&self) -> Fault {
        match self {
            Error::UnexpectedEof => Fault::UnexpectedEof,
            Error::UnsupportedVersion(version) => Fault::UnsupportedVersion(*version),
            Error::InvalidData(text) => Fault::InvalidData(text@),
        }
    }
}

} // verus!
