//! The error taxonomy shared by the protocol and retry layers.

use vstd::prelude::*;

verus! {

/// Why an operation on the meter did not produce a value.
#[derive(Clone, Copy, Debug, PartialEq, Eq)]
pub enum HospError {
    /// No matching device was found, or the transport refused to open it.
    Open,
    /// A write or a read failed at the transport.
    Io,
    /// A numeric field of a reply did not hold a decimal number.
    Parse,
    /// The retry layer gave up: the attempt budget or the budget of
    /// consecutive transport failures was used up.
    FatalAbort,
}

/// Result of an operation on the meter.
pub type HospResult<T> = Result<T, HospError>;

impl HospError {
    /// A short description of the error, for messages to the user.
    pub fn message(&self) -> (text: &'static str)
        ensures
            text@ == (match *self {
                HospError::Open => "Failed to open ODROID Smart Power connection"@,
                HospError::Io => "I/O error on ODROID Smart Power"@,
                HospError::Parse => "Malformed reply from ODROID Smart Power"@,
                HospError::FatalAbort => "Failed to read from ODROID Smart Power"@,
            }),
    {
        match self {
            HospError::Open => "Failed to open ODROID Smart Power connection",
            HospError::Io => "I/O error on ODROID Smart Power",
            HospError::Parse => "Malformed reply from ODROID Smart Power",
            HospError::FatalAbort => "Failed to read from ODROID Smart Power",
        }
    }
}

} // verus!
