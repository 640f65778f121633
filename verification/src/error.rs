//! The errors that the emulator reports.

use crate::text::concatenated;
use vstd::prelude::*;

verus! {

/// What went wrong.
#[derive(Debug, PartialEq, Eq)]
pub enum WieError {
    /// The operation cannot continue; the text says why.
    FatalError(String),
    /// A buffer is larger than the guest can hold.
    AllocationFailure,
    /// The guest address is not readable or writable.
    InvalidMemoryAccess(u32),
}

/// The meaning of a [`WieError`].
pub enum ErrorView {
    FatalError(Seq<char>),
    AllocationFailure,
    InvalidMemoryAccess(u32),
}

impl View for WieError {
    type V = ErrorView;

    open spec fn view(&self) -> ErrorView {
        match self {
            WieError::FatalError(message) => ErrorView::FatalError(message@),
            WieError::AllocationFailure => ErrorView::AllocationFailure,
            WieError::InvalidMemoryAccess(address) => ErrorView::InvalidMemoryAccess(*address),
        }
    }
}

/// A fatal error with the given text.
pub fn fatal(message: &str) -> (error: WieError)
    ensures
        error@ == ErrorView::FatalError(message@),
{
    WieError::FatalError(message.to_owned())
}

/// A fatal error whose text is `detail` behind `prefix`.
pub fn fatal_with(prefix: &str, detail: &str) -> (error: WieError)
    ensures
        error@ == ErrorView::FatalError(prefix@ + detail@),
{
    WieError::FatalError(concatenated(prefix, detail))
}

/// A copy of `error`.
pub fn copy_error(error: &WieError) -> (copy: WieError)
    ensures
        copy@ == error@,
{
    match error {
        WieError::FatalError(message) => WieError::FatalError(message.clone()),
        WieError::AllocationFailure => WieError::AllocationFailure,
        WieError::InvalidMemoryAccess(address) => WieError::InvalidMemoryAccess(*address),
    }
}

} // verus!
