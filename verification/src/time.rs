//! Instants in UTC and their text form.
use chrono::{DateTime, SecondsFormat, Utc};
use vstd::prelude::*;

verus! {

/// The first second that an instant can lie in: the year -262143 begins.
pub const MIN_SECONDS: i64 = -8334601228800;

/// The last second that an instant can lie in: the year 262142 ends.
pub const MAX_SECONDS: i64 = 8210266876799;

/// Holds where `secs` seconds and `nanos` nanoseconds after the epoch are an instant. From
/// a full second of nanoseconds on, they count into a leap second, which follows the 59th
/// second of a minute only.
pub open spec fn valid_instant(secs: i64, nanos: u32) -> bool {
    &&& MIN_SECONDS <= secs <= MAX_SECONDS
    &&& nanos < 2_000_000_000
    &&& nanos >= 1_000_000_000 ==> secs % 60 == 59
}

/// An instant in UTC, to the nanosecond.
#[derive(Clone, Copy, Debug, PartialEq, Eq, Structural)]
pub struct Timestamp {
    secs: i64,
    nanos: u32,
}

impl Timestamp {
    #[verifier::type_invariant]
    spec fn valid(self) -> bool {
        valid_instant(self.secs, self.nanos)
    }

    /// The seconds since the epoch.
    pub closed spec fn seconds(self) -> i64 {
        self.secs
    }

    /// The nanoseconds within the second.
    pub closed spec fn nanoseconds(self) -> u32 {
        self.nanos
    }

    /// Holds where `self` comes before `other`.
    pub open spec fn before(self, other: Timestamp) -> bool {
        self.seconds() < other.seconds() || (self.seconds() == other.seconds()
            && self.nanoseconds() < other.nanoseconds())
    }

    /// Holds where `self` does not come after `other`.
    pub open spec fn at_or_before(self, other: Timestamp) -> bool {
        !other.before(self)
    }

    /// The instant `secs` seconds and `nanos` nanoseconds after the epoch, where there is one.
    pub fn from_parts(secs: i64, nanos: u32) -> (r: Option<Timestamp>)
        ensures
            match r {
                Some(t) => valid_instant(secs, nanos) && t.seconds() == secs && t.nanoseconds()
                    == nanos,
                None => !valid_instant(secs, nanos),
            },
    {
        if secs < MIN_SECONDS || secs > MAX_SECONDS || nanos >= 2_000_000_000 {
            return None;
        }
        if nanos >= 1_000_000_000 {
            let shifted: u64 = (secs - MIN_SECONDS) as u64;
            assert((secs - MIN_SECONDS) % 60 == secs % 60);
            if shifted % 60 != 59 {
                return None;
            }
        }
        Some(Timestamp { secs, nanos })
    }

    /// The seconds since the epoch.
    pub fn secs(&self) -> (r: i64)
        ensures
            r == self.seconds(),
            valid_instant(self.seconds(), self.nanoseconds()),
    {
        proof {
            use_type_invariant(self);
        }
        self.secs
    }

    /// The nanoseconds within the second.
    pub fn nanos(&self) -> (r: u32)
        ensures
            r == self.nanoseconds(),
            valid_instant(self.seconds(), self.nanoseconds()),
    {
        proof {
            use_type_invariant(self);
        }
        self.nanos
    }

    /// Tells whether `self` comes before `other`.
    pub fn is_before(&self, other: &Timestamp) -> (r: bool)
        ensures
            r == self.before(*other),
    {
        self.secs < other.secs || (self.secs == other.secs && self.nanos < other.nanos)
    }

    /// Tells whether `self` does not come after `other`.
    pub fn is_at_or_before(&self, other: &Timestamp) -> (r: bool)
        ensures
            r == self.at_or_before(*other),
    {
        !other.is_before(self)
    }
}

/// Two instants are ordered one way or the other, or are the same.
pub proof fn law_instants_are_ordered(a: Timestamp, b: Timestamp)
    ensures
        a.before(b) || b.before(a) || a == b,
        !(a.before(b) && b.before(a)),
        a.at_or_before(b) <==> a.before(b) || a == b,
{
}

/// `Utc::now` of `chrono`, as the seconds and nanoseconds since the epoch. All that is
/// claimed is that the result is an instant: which one depends on the clock. A clock that stands
/// before the epoch makes it panic, which no caller can rule out.
#[verifier::external_body]
fn now_parts() -> (r: (i64, u32))
    ensures
        valid_instant(r.0, r.1),
{
    let now = Utc::now();
    (now.timestamp(), now.timestamp_subsec_nanos())
}

/// The current instant.
pub fn utc_now() -> (r: Timestamp)
    ensures
        valid_instant(r.seconds(), r.nanoseconds()),
{
    let (secs, nanos) = now_parts();
    Timestamp { secs, nanos }
}

/// The instant from which seconds are counted.
pub fn epoch() -> (r: Timestamp)
    ensures
        r.seconds() == 0,
        r.nanoseconds() == 0,
{
    Timestamp { secs: 0, nanos: 0 }
}

/// The instant itself: instants are always in UTC.
pub fn ensure_utc(dt: Option<Timestamp>) -> (r: Option<Timestamp>)
    ensures
        r == dt,
{
    dt
}

/// What `DateTime::to_rfc3339_opts` of `chrono` writes for the instant `secs` seconds and
/// `nanos` nanoseconds after the epoch, with an offset of `+00:00`: to the microsecond where
/// `micros` holds, and to the second otherwise.
pub uninterp spec fn rfc3339_text(secs: i64, nanos: u32, micros: bool) -> Seq<char>;

/// `DateTime::to_rfc3339_opts` of `chrono`, without `Z`, on the instant that
/// `DateTime::from_timestamp` makes of the parts. The text depends on the arguments alone.
/// `from_timestamp` has an instant for all parts that `requires` admits.
#[verifier::external_body]
fn to_rfc3339(secs: i64, nanos: u32, micros: bool) -> (r: String)
    requires
        valid_instant(secs, nanos),
    ensures
        r@ == rfc3339_text(secs, nanos, micros),
{
    let format = if micros { SecondsFormat::Micros } else { SecondsFormat::Secs };
    DateTime::<Utc>::from_timestamp(secs, nanos).expect("valid").to_rfc3339_opts(format, false)
}

/// The text of an instant: without a fraction where its microseconds are zero, and with six
/// digits of fraction otherwise.
pub open spec fn iso_text(t: Timestamp) -> Seq<char> {
    rfc3339_text(t.seconds(), t.nanoseconds(), t.nanoseconds() / 1000 != 0)
}

/// The text of an instant, with microseconds only where there are any.
pub fn isoformat(dt: Timestamp) -> (r: String)
    ensures
        r@ == iso_text(dt),
{
    to_rfc3339(dt.secs(), dt.nanos(), dt.nanos() / 1000 != 0)
}

/// The parts of the instant that `DateTime::parse_from_rfc3339` of `chrono` reads in a text,
/// brought to UTC; `None` where the text is no date and time of RFC 3339.
pub uninterp spec fn rfc3339_instant(text: Seq<char>) -> Option<(i64, u32)>;

/// `DateTime::parse_from_rfc3339` of `chrono`, brought to UTC. What it reads depends on the
/// text alone, and is an instant.
#[verifier::external_body]
fn from_rfc3339(text: &str) -> (r: Option<(i64, u32)>)
    ensures
        r == rfc3339_instant(text@),
        r matches Some((secs, nanos)) ==> valid_instant(secs, nanos),
{
    match DateTime::parse_from_rfc3339(text) {
        Ok(dt) => Some((dt.timestamp(), dt.timestamp_subsec_nanos())),
        Err(_) => None,
    }
}

/// The instant that a text in RFC 3339 form denotes.
pub closed spec fn instant_of(text: Seq<char>) -> Option<Timestamp> {
    match rfc3339_instant(text) {
        Some((secs, nanos)) => Some(Timestamp { secs, nanos }),
        None => None,
    }
}

/// The instant that a text in RFC 3339 form denotes.
pub fn parse_rfc3339(text: &str) -> (r: Option<Timestamp>)
    ensures
        r == instant_of(text@),
        match rfc3339_instant(text@) {
            Some((secs, nanos)) => r matches Some(t) && t.seconds() == secs && t.nanoseconds()
                == nanos,
            None => r is None,
        },
{
    match from_rfc3339(text) {
        Some((secs, nanos)) => Some(Timestamp { secs, nanos }),
        None => None,
    }
}

/// An instant comes before another exactly where it lies in an earlier second, or in the same
/// second with fewer nanoseconds.
pub proof fn law_instants_follow_the_clock(a: Timestamp, b: Timestamp)
    ensures
        a.seconds() < b.seconds() ==> a.before(b) && !b.before(a) && a.at_or_before(b)
            && !b.at_or_before(a),
        a.seconds() == b.seconds() && a.nanoseconds() < b.nanoseconds() ==> a.before(b)
            && !b.before(a) && a.at_or_before(b) && !b.at_or_before(a),
        a.seconds() == b.seconds() && a.nanoseconds() == b.nanoseconds() ==> a == b
            && !a.before(b) && a.at_or_before(b),
{
}

} // verus!
