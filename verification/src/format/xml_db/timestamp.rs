//! Moments as the XML document has them.
use vstd::prelude::*;

use crate::datetime::NaiveDateTime;

verus! {

/// How a moment is written.
#[derive(Clone, Copy, Debug, PartialEq, Eq, Structural)]
pub enum TimestampMode {
    /// A count of seconds, in Base64.
    Base64,
    /// Date and time of day, as in ISO 8601.
    Iso8601,
}

/// A moment, and how it is written.
#[derive(Clone, Copy, Debug, PartialEq, Eq, Structural)]
pub struct Timestamp {
    pub mode: TimestampMode,
    pub time: NaiveDateTime,
}

} // verus!
