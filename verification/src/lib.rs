//! Protocol layer for the ODROID Smart Power, a power meter on USB HID.
//!
//! The meter takes two-byte commands and answers with 65-byte replies that
//! hold ASCII text. This crate holds what is to be known about that
//! exchange, apart from the transport itself:
//!
//! - [`frame`]: the commands, the check that a reply answers a request, and
//!   the decoding of version, status and data replies;
//! - [`decimal`]: the decoding of one numeric field into milli-units;
//! - [`util`]: the retry policy that waits for the meter to have an answer;
//! - [`error`]: the errors of all of them.
//!
//! The functions are verified against contracts over mathematical models
//! of what they compute. One call is trusted instead: the lossy decoding of
//! UTF-8 by std, behind which the version string is made.

pub mod decimal;
pub mod error;
pub mod frame;
pub mod util;

pub use decimal::to_milliunits;
pub use error::{HospError, HospResult};
pub use frame::{HospData, HospStatus, Request};
