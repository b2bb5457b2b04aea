//! What a connection asks of its streams.
use vstd::prelude::*;

verus! {

/// Why a connection sends: in the course of things, or to probe a peer that has
/// gone quiet.
#[derive(Debug, Clone, Copy, PartialEq, Eq, Structural)]
pub enum TxMode {
    Normal,
    Pto,
}

} // verus!
