//! The errors of the transport.
use vstd::prelude::*;

verus! {

/// What can go wrong with a stream.
#[derive(Debug, Clone, Copy, PartialEq, Eq, Structural)]
pub enum Error {
    /// The peer sent data past the end of a stream, or moved the end.
    ErrFinalSizeError,
}

/// A result whose error is that of the transport.
pub type Res<T> = Result<T, Error>;

} // verus!
