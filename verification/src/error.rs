//! The ways in which a load or a query can fail.
use vstd::prelude::*;

verus! {

/// Why a load or a query was turned down. None of these ends the program:
/// each is handed to the caller, and the store is left as it was.
#[derive(Clone, Copy, Debug, PartialEq, Eq, Structural)]
pub enum Error {
    /// The quantized matrix does not have two positive dimensions, or the
    /// number of its codes is not their product.
    MalformedInput,
    /// A query arrived before any embedding was stored.
    NotInitialized,
    /// The query index does not name a vector of the stored embedding.
    IndexOutOfRange,
}

impl Error {
    /// A short description for the host.
    pub fn message(&self) -> (text: &'static str)
        ensures
            text@ == match *self {
                Error::MalformedInput => "Quantized matrix is malformed"@,
                Error::NotInitialized => "Normalized matrix not initialized"@,
                Error::IndexOutOfRange => "Query index out of range"@,
            },
    {
        match self {
            Error::MalformedInput => "Quantized matrix is malformed",
            Error::NotInitialized => "Normalized matrix not initialized",
            Error::IndexOutOfRange => "Query index out of range",
        }
    }
}

} // verus!
