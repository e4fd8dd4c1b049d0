use vstd::prelude::*;

verus! {

/// Why a transaction is rejected.
#[derive(Debug, Clone, Copy, PartialEq, Eq, Structural)]
pub enum Error {
    /// A numeric field of an output cell could not be read.
    Encoding,
    /// Some owner was paid less than the escrow cells promise.
    Amount,
    /// The script arguments are not exactly one 32-byte hash.
    ArgsLength,
    /// An escrow cell's payload is shorter than its fixed record.
    DataLength,
    /// The escrow cells are grouped in a way the lock does not accept.
    TransactionStructure,
}

impl Error {
    /// The exit code under which the host reports this failure.
    pub fn code(&self) -> (r: i8)
        ensures
            r == match *self {
                Error::Encoding => 4i8,
                Error::Amount => 5i8,
                Error::ArgsLength => 6i8,
                Error::DataLength => 7i8,
                Error::TransactionStructure => 8i8,
            },
    {
        match self {
            Error::Encoding => 4,
            Error::Amount => 5,
            Error::ArgsLength => 6,
            Error::DataLength => 7,
            Error::TransactionStructure => 8,
        }
    }
}

} // verus!
