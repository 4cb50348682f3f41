//! The moments of an entry or a group as the XML document has them.
use vstd::prelude::*;
use vstd::std_specs::convert::FromSpecImpl;

use crate::datetime::NaiveDateTime;
use crate::db;
use crate::format::xml_db::timestamp::{Timestamp, TimestampMode};

verus! {

/// The `Times` element of an entry or a group. A moment that is unknown is left out.
#[derive(Clone, Copy, Debug, PartialEq, Eq, Structural)]
pub struct Times {
    pub creation_time: Option<Timestamp>,
    pub last_modification_time: Option<Timestamp>,
    pub last_access_time: Option<Timestamp>,
    pub expiry_time: Option<Timestamp>,
    pub expires: Option<bool>,
    pub usage_count: Option<usize>,
    pub location_changed: Option<Timestamp>,
}

/// The moment of a timestamp that may be there.
pub open spec fn moment_of(timestamp: Option<Timestamp>) -> Option<NaiveDateTime> {
    match timestamp {
        Some(t) => Some(t.time),
        None => None,
    }
}

/// A moment that may be known, in the form that a KDBX 4 file requires.
pub open spec fn stamped(moment: Option<NaiveDateTime>) -> Option<Timestamp> {
    match moment {
        Some(time) => Some(Timestamp { mode: TimestampMode::Base64, time }),
        None => None,
    }
}

/// The moments that are read from the document.
pub open spec fn times_read(t: Times) -> db::times::Times {
    db::times::Times {
        creation: moment_of(t.creation_time),
        last_modification: moment_of(t.last_modification_time),
        last_access: moment_of(t.last_access_time),
        expiry: moment_of(t.expiry_time),
        location_changed: moment_of(t.location_changed),
        expires: t.expires,
        usage_count: t.usage_count,
    }
}

/// The moments that are written to the document.
pub open spec fn times_written(t: db::times::Times) -> Times {
    Times {
        creation_time: stamped(t.creation),
        last_modification_time: stamped(t.last_modification),
        last_access_time: stamped(t.last_access),
        expiry_time: stamped(t.expiry),
        expires: t.expires,
        usage_count: t.usage_count,
        location_changed: stamped(t.location_changed),
    }
}

fn read_moment(timestamp: Option<Timestamp>) -> (moment: Option<NaiveDateTime>)
    ensures
        moment == moment_of(timestamp),
{
    match timestamp {
        Some(t) => Some(t.time),
        None => None,
    }
}

fn stamp(moment: Option<NaiveDateTime>) -> (timestamp: Option<Timestamp>)
    ensures
        timestamp == stamped(moment),
{
    match moment {
        Some(time) => Some(Timestamp { mode: TimestampMode::Base64, time }),
        None => None,
    }
}

impl From<Times> for db::times::Times {
    fn from(t: Times) -> (times: Self) {
        db::times::Times {
            creation: read_moment(t.creation_time),
            last_modification: read_moment(t.last_modification_time),
            last_access: read_moment(t.last_access_time),
            expiry: read_moment(t.expiry_time),
            location_changed: read_moment(t.location_changed),
            expires: t.expires,
            usage_count: t.usage_count,
        }
    }
}

impl FromSpecImpl<Times> for db::times::Times {
    open spec fn obeys_from_spec() -> bool {
        true
    }

    open spec fn from_spec(t: Times) -> Self {
        times_read(t)
    }
}

/// Every moment is written as a count of seconds in Base64: other clients refuse a KDBX 4 file with
/// moments in ISO 8601.
impl From<db::times::Times> for Times {
    fn from(t: db::times::Times) -> (times: Self) {
        Times {
            creation_time: stamp(t.creation),
            last_modification_time: stamp(t.last_modification),
            last_access_time: stamp(t.last_access),
            expiry_time: stamp(t.expiry),
            expires: t.expires,
            usage_count: t.usage_count,
            location_changed: stamp(t.location_changed),
        }
    }
}

impl FromSpecImpl<db::times::Times> for Times {
    open spec fn obeys_from_spec() -> bool {
        true
    }

    open spec fn from_spec(t: db::times::Times) -> Self {
        times_written(t)
    }
}

/// Every moment that is read is the one that the document has for it, however it is written there.
pub proof fn each_moment_is_read(t: Times)
    ensures
        ({
            let read = times_read(t);
            &&& read.creation is Some <==> t.creation_time is Some
            &&& t.creation_time is Some ==> read.creation->0 == t.creation_time->0.time
            &&& read.last_modification is Some <==> t.last_modification_time is Some
            &&& t.last_modification_time is Some ==> read.last_modification->0 == t.last_modification_time->0.time
            &&& read.last_access is Some <==> t.last_access_time is Some
            &&& t.last_access_time is Some ==> read.last_access->0 == t.last_access_time->0.time
            &&& read.expiry is Some <==> t.expiry_time is Some
            &&& t.expiry_time is Some ==> read.expiry->0 == t.expiry_time->0.time
            &&& read.location_changed is Some <==> t.location_changed is Some
            &&& t.location_changed is Some ==> read.location_changed->0 == t.location_changed->0.time
            &&& read.expires == t.expires
            &&& read.usage_count == t.usage_count
        }),
{
}

/// Every moment that is known is written, as a count of seconds in Base64, and nothing else is.
pub proof fn each_moment_is_written(t: db::times::Times)
    ensures
        ({
            let written = times_written(t);
            let same = |stamp: Option<Timestamp>, moment: Option<NaiveDateTime>|
                match (stamp, moment) {
                    (Some(stamp), Some(time)) => stamp.time == time && stamp.mode is Base64,
                    (None, None) => true,
                    _ => false,
                };
            &&& same(written.creation_time, t.creation)
            &&& same(written.last_modification_time, t.last_modification)
            &&& same(written.last_access_time, t.last_access)
            &&& same(written.expiry_time, t.expiry)
            &&& same(written.location_changed, t.location_changed)
            &&& written.expires == t.expires
            &&& written.usage_count == t.usage_count
        }),
{
}

/// What is written and read again is what it was.
pub proof fn lemma_times_round_trip(t: db::times::Times)
    ensures
        times_read(times_written(t)) == t,
{
}

/// Every moment that is written is written as a count of seconds in Base64, and an unknown one is
/// left out.
pub proof fn lemma_times_in_base64(t: db::times::Times)
    ensures
        forall|stamp: Option<Timestamp>|
            stamp == times_written(t).creation_time || stamp == times_written(t).last_modification_time || stamp
                == times_written(t).last_access_time || stamp == times_written(t).expiry_time || stamp
                == times_written(t).location_changed ==> (#[trigger] moment_of(stamp) is Some ==> stamp->0.mode
                == TimestampMode::Base64),
        times_written(t).creation_time is Some <==> t.creation is Some,
        times_written(t).last_modification_time is Some <==> t.last_modification is Some,
        times_written(t).last_access_time is Some <==> t.last_access is Some,
        times_written(t).expiry_time is Some <==> t.expiry is Some,
        times_written(t).location_changed is Some <==> t.location_changed is Some,
        times_written(t).expires == t.expires,
        times_written(t).usage_count == t.usage_count,
{
}

} // verus!
