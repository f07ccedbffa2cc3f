//! Instants of the calendar, as chrono holds them, and the chrono calls that
//! format and parse them as RFC 3339 text.

use vstd::prelude::*;

verus! {

/// Earliest second that chrono represents (-262143-01-01T00:00:00Z).
pub const MIN_SECS: i64 = -8_334_601_228_800;

/// Latest second that chrono represents (+262142-12-31T23:59:59Z).
pub const MAX_SECS: i64 = 8_210_266_876_799;

/// Nanoseconds in a second.
pub const NANOS_PER_SEC: u32 = 1_000_000_000;

/// An instant with the UTC offset of the time zone it is shown in: seconds
/// since 1970-01-01T00:00:00Z, nanoseconds within that second, and the offset
/// in seconds east of UTC. Two moments compare by instant only.
#[derive(Clone, Copy, Debug)]
pub struct Moment {
    pub secs: i64,
    pub nanos: u32,
    pub offset: i32,
}

impl Moment {
    /// Within chrono's range, no leap-second nanoseconds, and an offset of
    /// less than a day.
    pub open spec fn wf(self) -> bool {
        &&& MIN_SECS <= self.secs <= MAX_SECS
        &&& self.nanos < NANOS_PER_SEC
        &&& -86_400 < self.offset < 86_400
    }

    /// Nanoseconds since the Unix epoch.
    pub open spec fn instant(self) -> int {
        self.secs * 1_000_000_000 + self.nanos
    }

    /// `self` comes strictly before `other`.
    pub open spec fn before(self, other: Moment) -> bool {
        self.secs < other.secs || (self.secs == other.secs && self.nanos < other.nanos)
    }

    /// The moment from its parts, when they satisfy `wf`.
    pub fn from_parts(secs: i64, nanos: u32, offset: i32) -> (r: Option<Moment>)
        ensures
            match r {
                Some(m) => m.wf() && m.secs == secs && m.nanos == nanos && m.offset == offset,
                None => !(Moment { secs, nanos, offset }).wf(),
            },
    {
        if MIN_SECS <= secs && secs <= MAX_SECS && nanos < NANOS_PER_SEC && -86_400 < offset
            && offset < 86_400 {
            Some(Moment { secs, nanos, offset })
        } else {
            None
        }
    }

    /// Whether `self` comes strictly before `other`.
    pub fn is_before(&self, other: &Moment) -> (r: bool)
        ensures
            r == self.before(*other),
    {
        self.secs < other.secs || (self.secs == other.secs && self.nanos < other.nanos)
    }
}

/// For well-formed moments, the order of `before` is the order of instants.
pub proof fn lemma_before_is_instant_order(a: Moment, b: Moment)
    requires
        a.wf(),
        b.wf(),
    ensures
        a.before(b) <==> a.instant() < b.instant(),
        a.instant() == b.instant() <==> (a.secs == b.secs && a.nanos == b.nanos),
{
    if a.secs < b.secs {
        assert(a.secs * 1_000_000_000 + 1_000_000_000 <= b.secs * 1_000_000_000);
    } else if a.secs > b.secs {
        assert(b.secs * 1_000_000_000 + 1_000_000_000 <= a.secs * 1_000_000_000);
    }
}

impl PartialEq for Moment {
    fn eq(&self, other: &Moment) -> (r: bool) {
        self.secs == other.secs && self.nanos == other.nanos
    }
}

impl vstd::std_specs::cmp::PartialEqSpecImpl for Moment {
    open spec fn obeys_eq_spec() -> bool {
        true
    }

    open spec fn eq_spec(&self, other: &Moment) -> bool {
        self.secs == other.secs && self.nanos == other.nanos
    }
}

/// The RFC 3339 text that chrono's `DateTime::to_rfc3339` writes for the
/// instant `secs`/`nanos` shown at UTC offset `offset`.
pub uninterp spec fn rfc3339_text(secs: i64, nanos: u32, offset: i32) -> Seq<char>;

/// The instant (seconds, nanoseconds within the second) that chrono's
/// `DateTime::parse_from_rfc3339` reads from a text, or `None` if it refuses it.
pub uninterp spec fn rfc3339_instant(text: Seq<char>) -> Option<(i64, u32)>;

/// The RFC 3339 text with whole seconds and a `+00:00` offset that chrono's
/// `DateTime<Utc>::to_rfc3339_opts(SecondsFormat::Secs, false)` writes.
pub uninterp spec fn rfc3339_utc_secs_text(secs: i64, nanos: u32) -> Seq<char>;

/// The local date of the moment lies in the years 0000 to 9999 and its offset
/// is a whole number of minutes: chrono writes such a moment with a four-digit
/// year and an exact offset, and reads it back unchanged.
pub open spec fn rfc3339_round_trips(secs: i64, offset: i32) -> bool {
    &&& offset % 60 == 0
    &&& -62_167_219_200 <= secs + offset <= 253_402_300_799
}

/// chrono's `DateTime::<FixedOffset>::to_rfc3339`, on the moment built with
/// `DateTime::from_timestamp` and `FixedOffset::east_opt` (both succeed on
/// well-formed parts). The text is the named function of the parts. As
/// chrono's `write_rfc3339` shows, it holds only digits, `-`, `+`, `T`, `:`
/// and `.`, so no `|`; and `parse_from_rfc3339` reads back the same instant
/// when the local year has four digits and the offset whole minutes.
#[verifier::external_body]
pub(crate) fn format_rfc3339(secs: i64, nanos: u32, offset: i32) -> (r: String)
    requires
        (Moment { secs, nanos, offset }).wf(),
    ensures
        r@ == rfc3339_text(secs, nanos, offset),
        forall|i: int| 0 <= i < r@.len() ==> r@[i] != '|',
        rfc3339_round_trips(secs, offset) ==> rfc3339_instant(r@) == Some((secs, nanos)),
{
    let zone = chrono::FixedOffset::east_opt(offset).unwrap();
    chrono::DateTime::from_timestamp(secs, nanos).unwrap().with_timezone(&zone).to_rfc3339()
}

/// chrono's `DateTime::parse_from_rfc3339`, the result taken as its Unix
/// timestamp and sub-second nanoseconds. The result is the named function of
/// the text; the RFC 3339 grammar is left to the name.
#[verifier::external_body]
pub(crate) fn parse_rfc3339(text: &str) -> (r: Option<(i64, u32)>)
    ensures
        r == rfc3339_instant(text@),
{
    chrono::DateTime::parse_from_rfc3339(text).ok().map(
        |d| (d.timestamp(), d.timestamp_subsec_nanos()),
    )
}

/// chrono's `DateTime::<Utc>::to_rfc3339_opts(SecondsFormat::Secs, false)` on
/// the instant built with `DateTime::from_timestamp` (which succeeds on
/// well-formed parts). The text is the named function of the instant.
#[verifier::external_body]
pub(crate) fn format_rfc3339_utc_secs(secs: i64, nanos: u32) -> (r: String)
    requires
        (Moment { secs, nanos, offset: 0 }).wf(),
    ensures
        r@ == rfc3339_utc_secs_text(secs, nanos),
{
    chrono::DateTime::from_timestamp(secs, nanos).unwrap().to_rfc3339_opts(
        chrono::SecondsFormat::Secs,
        false,
    )
}

/// The moment `minutes` minutes before `m`, shown at the same offset.
pub fn minutes_before(m: Moment, minutes: u32) -> (r: Moment)
    requires
        m.wf(),
        MIN_SECS <= m.secs - 60 * minutes,
    ensures
        r.wf(),
        r.secs == m.secs - 60 * minutes,
        r.nanos == m.nanos,
        r.offset == m.offset,
        r.instant() == m.instant() - 60_000_000_000 * minutes,
{
    Moment { secs: m.secs - 60 * (minutes as i64), nanos: m.nanos, offset: m.offset }
}

} // verus!
