//! The moments recorded with an entry or a group.
use vstd::prelude::*;

use crate::datetime::NaiveDateTime;

verus! {

/// When an entry or a group was created, changed, used and moved.
#[derive(Clone, Copy, Debug, PartialEq, Eq, Structural)]
pub struct Times {
    pub creation: Option<NaiveDateTime>,
    pub last_modification: Option<NaiveDateTime>,
    pub last_access: Option<NaiveDateTime>,
    pub expiry: Option<NaiveDateTime>,
    pub location_changed: Option<NaiveDateTime>,
    pub expires: Option<bool>,
    pub usage_count: Option<usize>,
}

/// The first of two moments that is known.
pub open spec fn first_known(a: Option<NaiveDateTime>, b: Option<NaiveDateTime>) -> Option<NaiveDateTime> {
    if a is Some {
        a
    } else {
        b
    }
}

impl Times {
    /// The moment of the last modification or, where that is unknown, of the last move.
    pub open spec fn spec_last_change(self) -> Option<NaiveDateTime> {
        first_known(self.last_modification, self.location_changed)
    }

    pub fn last_change(&self) -> (moment: Option<NaiveDateTime>)
        ensures
            moment == self.spec_last_change(),
    {
        either(self.last_modification, self.location_changed)
    }
}

/// The first of two moments that is known.
pub fn either(a: Option<NaiveDateTime>, b: Option<NaiveDateTime>) -> (moment: Option<NaiveDateTime>)
    ensures
        moment == first_known(a, b),
{
    match a {
        Some(_) => a,
        None => b,
    }
}

impl Default for Times {
    fn default() -> (times: Self)
        ensures
            times == Self::unknown(),
    {
        Times {
            creation: None,
            last_modification: None,
            last_access: None,
            expiry: None,
            location_changed: None,
            expires: None,
            usage_count: None,
        }
    }
}

impl Times {
    /// No moment is known.
    pub open spec fn unknown() -> Self {
        Times {
            creation: None,
            last_modification: None,
            last_access: None,
            expiry: None,
            location_changed: None,
            expires: None,
            usage_count: None,
        }
    }
}

} // verus!
