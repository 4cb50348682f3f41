//! Points in time, as the database records them.
use vstd::prelude::*;

verus! {

/// The first second of the supported range: 1 January, year -262143.
pub const FIRST_SECOND: i64 = -8334601228800;

/// The last second of the supported range: 31 December, year 262142.
pub const LAST_SECOND: i64 = 8210266876799;

/// A date and time without a time zone, read as UTC.
///
/// Held as whole seconds since the start of 1970 and the nanoseconds within that second. A leap
/// second is written as the second before it with a nanosecond count of a billion or more.
#[derive(Clone, Copy, Debug, PartialEq, Eq, PartialOrd, Ord, Hash, Structural)]
pub struct NaiveDateTime {
    seconds: i64,
    nanos: u32,
}

/// Whether `seconds` and `nanos` denote a moment in the supported range.
pub open spec fn valid_moment(seconds: i64, nanos: u32) -> bool {
    &&& FIRST_SECOND <= seconds <= LAST_SECOND
    &&& nanos < 2_000_000_000
    &&& nanos >= 1_000_000_000 ==> (seconds as int) % 60 == 59
}

/// What `chrono::NaiveDateTime` displays for a moment given as seconds and nanoseconds.
pub uninterp spec fn chrono_datetime_text(seconds: i64, nanos: u32) -> Seq<char>;

/// Writes a moment with the `Display` of `chrono::NaiveDateTime`, after rebuilding the moment
/// with `chrono::DateTime::from_timestamp`, which accepts exactly the valid moments. The text is
/// a function of the two numbers; its layout is left to chrono.
#[verifier::external_body]
fn chrono_display(seconds: i64, nanos: u32) -> (text: String)
    requires
        valid_moment(seconds, nanos),
    ensures
        text@ == chrono_datetime_text(seconds, nanos),
{
    chrono::DateTime::from_timestamp(seconds, nanos).unwrap().naive_utc().to_string()
}

/// Reads the clock with `chrono::Utc::now`, as whole seconds since the start of 1970. chrono
/// hands out only moments between then and the end of its range; which one is not stated.
#[verifier::external_body]
fn chrono_now() -> (seconds: i64)
    ensures
        0 <= seconds <= LAST_SECOND,
{
    chrono::Utc::now().timestamp()
}

impl NaiveDateTime {
    #[verifier::type_invariant]
    spec fn in_range(self) -> bool {
        valid_moment(self.seconds, self.nanos)
    }

    /// Whole seconds since the start of 1970.
    pub closed spec fn spec_seconds(self) -> i64 {
        self.seconds
    }

    /// Nanoseconds past the whole second.
    pub closed spec fn spec_nanos(self) -> u32 {
        self.nanos
    }

    /// `self` lies later in time than `other`.
    pub open spec fn is_after(self, other: Self) -> bool {
        ||| self.spec_seconds() > other.spec_seconds()
        ||| self.spec_seconds() == other.spec_seconds() && self.spec_nanos() > other.spec_nanos()
    }

    /// The text under which `self` appears in messages.
    pub open spec fn text(self) -> Seq<char> {
        chrono_datetime_text(self.spec_seconds(), self.spec_nanos())
    }

    /// The moment given by whole seconds since the start of 1970 and nanoseconds, if it is in the
    /// supported range.
    pub fn from_timestamp(seconds: i64, nanos: u32) -> (moment: Option<Self>)
        ensures
            moment is Some <==> valid_moment(seconds, nanos),
            moment matches Some(m) ==> m.spec_seconds() == seconds && m.spec_nanos() == nanos,
    {
        if seconds < FIRST_SECOND || seconds > LAST_SECOND || nanos >= 2_000_000_000 {
            return None;
        }
        // Seconds within the minute, counted upwards also before 1970.
        let within: i64 = (seconds - FIRST_SECOND) % 60;
        if nanos >= 1_000_000_000 && within != 59 {
            return None;
        }
        Some(NaiveDateTime { seconds, nanos })
    }

    pub fn timestamp(&self) -> (seconds: i64)
        ensures
            seconds == self.spec_seconds(),
    {
        self.seconds
    }

    pub fn timestamp_subsec_nanos(&self) -> (nanos: u32)
        ensures
            nanos == self.spec_nanos(),
    {
        self.nanos
    }

    /// Whether `self` lies later in time than `other`.
    pub fn after(&self, other: &Self) -> (later: bool)
        ensures
            later == self.is_after(*other),
    {
        self.seconds > other.seconds || (self.seconds == other.seconds && self.nanos > other.nanos)
    }

    /// The date and time as text.
    pub fn display(&self) -> (text: String)
        ensures
            text@ == self.text(),
    {
        proof {
            use_type_invariant(self);
        }
        chrono_display(self.seconds, self.nanos)
    }

    /// The start of 1970.
    pub fn epoch() -> (moment: Self)
        ensures
            moment == Self::spec_epoch(),
    {
        NaiveDateTime { seconds: 0, nanos: 0 }
    }

    pub closed spec fn spec_epoch() -> Self {
        NaiveDateTime { seconds: 0, nanos: 0 }
    }

    /// The current second.
    pub fn now() -> (moment: Self)
        ensures
            moment.spec_nanos() == 0,
            !Self::spec_epoch().is_after(moment),
    {
        NaiveDateTime { seconds: chrono_now(), nanos: 0 }
    }
}

/// The start of 1970 is where seconds are counted from.
pub proof fn lemma_epoch()
    ensures
        NaiveDateTime::spec_epoch().spec_seconds() == 0,
        NaiveDateTime::spec_epoch().spec_nanos() == 0,
{
}

/// Time is totally ordered: of two different moments, one is after the other.
pub proof fn lemma_time_total(a: NaiveDateTime, b: NaiveDateTime)
    ensures
        a == b || a.is_after(b) || b.is_after(a),
        !(a.is_after(b) && b.is_after(a)),
        !a.is_after(a),
{
}

/// A moment is any second of the supported range with less than a billion nanoseconds, and, as a leap
/// second, the last second of a minute with up to two billion.
pub proof fn every_second_is_a_moment(seconds: i64, nanos: u32)
    ensures
        valid_moment(seconds, nanos) <==> -8_334_601_228_800 <= seconds <= 8_210_266_876_799 && (nanos < 1_000_000_000
            || (nanos < 2_000_000_000 && (seconds as int) % 60 == 59)),
{
}

} // verus!
