//! Wall-clock timestamps and the moments they denote.
//!
//! A record holds what a clock on the wall showed. Which moment that was
//! depends on where the wall stood: before the cutoff day the readings are
//! taken as US Pacific time, from that day on as Berlin time. The calendar
//! and the two zones' rules come from `chrono` and `chrono-tz`.

use crate::text::unbroken;
use chrono::{Datelike, TimeZone};
use vstd::prelude::*;

verus! {

/// The two zones a reading can belong to.
#[derive(Clone, Copy, Debug, PartialEq, Eq, Structural)]
pub enum Zone {
    Pacific,
    Berlin,
}

/// The wall-clock second count of 0000-01-01 00:00, the first reading that
/// four year digits can write.
pub const WALL_MIN: i64 = -62_167_219_200;

/// The wall-clock second count of 9999-12-31 23:59:59, the last such reading.
pub const WALL_MAX: i64 = 253_402_300_799;

/// The wall-clock second count of 2019-05-01 00:00. Readings before it are
/// Pacific time, the others Berlin time.
pub const ZONE_CUTOFF: i64 = 1_556_668_800;

/// The day number of 1970-01-01, the day from which wall-clock seconds are
/// counted.
pub const EPOCH_DAY: i64 = 719_163;

/// How a reading is written in a record: year, month, day, abbreviated
/// weekday, hour and minute.
pub const STAMP_FORMAT: &'static str = "%Y-%m-%d %a %H:%M";

/// The number of a day of the proleptic Gregorian calendar, 0001-01-01
/// being day 1; `None` where the calendar has no such day
/// (`chrono::NaiveDate::from_ymd_opt`, `Datelike::num_days_from_ce`).
pub uninterp spec fn day_number(year: int, month: int, day: int) -> Option<int>;

/// The moments, in seconds since the Unix epoch, at which the clocks of a
/// zone show the wall-clock reading `wall`: none where the zone's clocks skip
/// it, two where they show it twice
/// (`chrono::TimeZone::from_local_datetime` of the `chrono-tz` zones).
pub uninterp spec fn zone_instants(berlin: bool, wall: int) -> Seq<i64>;

/// The reading `wall` written after the pattern `format`; `None` where the
/// pattern asks for what it cannot write (`chrono::NaiveDateTime::format`).
pub uninterp spec fn stamp_text(format: Seq<char>, wall: int) -> Option<Seq<char>>;

/// The seconds from 1970-01-01 00:00 to the given day and minute, counted
/// on the wall clock without regard to any zone; `None` where the calendar
/// has no such day or the day no such minute.
pub open spec fn wall_of(year: int, month: int, day: int, hour: int, minute: int) -> Option<int> {
    match day_number(year, month, day) {
        Some(n) => if 0 <= hour < 24 && 0 <= minute < 60 {
            Some((n - EPOCH_DAY) * 86400 + hour * 3600 + minute * 60)
        } else {
            None
        },
        None => None,
    }
}

/// The reading `wall` as a record writes it.
pub open spec fn reading_text(wall: int) -> Seq<char> {
    match stamp_text(STAMP_FORMAT@, wall) {
        Some(text) => text,
        None => Seq::empty(),
    }
}

/// The zone that a reading belongs to.
pub open spec fn zone_of(wall: int) -> Zone {
    if wall < ZONE_CUTOFF {
        Zone::Pacific
    } else {
        Zone::Berlin
    }
}

/// The earliest of the moments that a reading can denote.
pub open spec fn earliest(instants: Seq<i64>) -> Option<i64> {
    if instants.len() >= 1 {
        Some(instants[0])
    } else {
        None
    }
}

/// The latest of the moments that a reading can denote.
pub open spec fn latest(instants: Seq<i64>) -> Option<i64> {
    if instants.len() >= 2 {
        Some(instants[1])
    } else if instants.len() == 1 {
        Some(instants[0])
    } else {
        None
    }
}

/// Whether a moment lies less than a day from a reading: the clocks of a
/// zone are never a day or more from the Unix count of seconds.
pub open spec fn within_a_day(wall: int, instant: int) -> bool {
    wall - 86400 < instant < wall + 86400
}

/// The moment that a reading denotes in its zone: the earliest one, or the
/// latest where there is no earliest; `None` where the zone's clocks never
/// showed the reading.
pub open spec fn resolved(wall: int) -> Option<i64> {
    picked(zone_instants(zone_of(wall) is Berlin, wall))
}

/// The moment that is taken of those that a reading can denote: the
/// earliest one, or the latest where there is no earliest.
pub open spec fn picked(instants: Seq<i64>) -> Option<i64> {
    match earliest(instants) {
        Some(i) => Some(i),
        None => latest(instants),
    }
}

/// `chrono::NaiveDate::from_ymd_opt` and `Datelike::num_days_from_ce`: the
/// number of the day, counted from 0001-01-01 as day 1. Trusted: the result
/// is the one that `day_number` names; `None` comes back where the
/// constructor refuses its arguments.
#[verifier::external_body]
fn day_from_fields(year: i32, month: u32, day: u32) -> (r: Option<i32>)
    ensures
        match r {
            Some(n) => day_number(year as int, month as int, day as int) == Some(n as int),
            None => day_number(year as int, month as int, day as int) is None,
        },
{
    chrono::NaiveDate::from_ymd_opt(year, month, day).map(|date| date.num_days_from_ce())
}

/// `chrono::TimeZone::from_local_datetime` on `chrono_tz::US::Pacific` or
/// `chrono_tz::Europe::Berlin`: the moments at which the zone shows the
/// reading, as Unix timestamps in the order in which the crate gives them.
/// Trusted: they are the ones that `zone_instants` names, and each is the
/// reading less the zone's offset, which the crate keeps under a day either
/// way (`FixedOffset::east_opt`). The bounds keep
/// `DateTime::from_timestamp` inside the range where it returns a value.
#[verifier::external_body]
fn instants_in(zone: Zone, wall: i64) -> (r: Vec<i64>)
    requires
        WALL_MIN <= wall <= WALL_MAX,
    ensures
        r@ == zone_instants(zone is Berlin, wall as int),
        forall|k: int| 0 <= k < r@.len() ==> within_a_day(wall as int, #[trigger] r@[k] as int),
{
    let naive = chrono::DateTime::from_timestamp(wall, 0).unwrap().naive_utc();
    let tz = match zone {
        Zone::Pacific => chrono_tz::US::Pacific,
        Zone::Berlin => chrono_tz::Europe::Berlin,
    };
    match tz.from_local_datetime(&naive) {
        chrono::LocalResult::None => Vec::new(),
        chrono::LocalResult::Single(t) => vec![t.timestamp()],
        chrono::LocalResult::Ambiguous(a, b) => vec![a.timestamp(), b.timestamp()],
    }
}

/// `chrono::NaiveDateTime::format` and `DelayedFormat::write_to`: the
/// reading written after `format`. Trusted: the text is the one that
/// `stamp_text` names, `None` where the crate reports that it cannot write
/// what the pattern asks for; and written after `STAMP_FORMAT`, whose parts
/// are digits, an English weekday name, hyphens, colons and spaces, the text
/// holds neither line feed nor carriage return. The bounds keep
/// `DateTime::from_timestamp` inside the range where it returns a value.
#[verifier::external_body]
fn format_wall(format: &str, wall: i64) -> (r: Option<String>)
    requires
        WALL_MIN <= wall <= WALL_MAX,
    ensures
        match r {
            Some(text) => stamp_text(format@, wall as int) == Some(text@),
            None => stamp_text(format@, wall as int) is None,
        },
        format@ == STAMP_FORMAT@ ==> (r matches Some(text) ==> unbroken(text@)),
{
    let naive = chrono::DateTime::from_timestamp(wall, 0).unwrap().naive_utc();
    let mut text = String::new();
    naive.format(format).write_to(&mut text).ok()?;
    Some(text)
}

/// `chrono::Local::now` and `DateTime::timestamp`: the present moment in
/// seconds since the Unix epoch. Nothing is promised of it.
#[verifier::external_body]
pub(crate) fn current_instant() -> i64 {
    chrono::Local::now().timestamp()
}

/// A wall-clock reading together with the moment it denotes.
#[derive(Clone, Copy, Debug, PartialEq, Eq, Hash, Structural)]
pub struct Timestamp {
    wall: i64,
    instant: i64,
}

impl Timestamp {
    #[verifier::type_invariant]
    closed spec fn inv(self) -> bool {
        self.wf()
    }

    /// The reading, in seconds from 1970-01-01 00:00 on the wall clock.
    pub closed spec fn wall(self) -> int {
        self.wall as int
    }

    /// The moment, in seconds since the Unix epoch.
    pub closed spec fn instant(self) -> int {
        self.instant as int
    }

    /// A timestamp is well formed when four year digits can write its
    /// reading, its moment is the one the reading denotes in its zone, less
    /// than a day from the reading, and the reading can be written as one
    /// unbroken text.
    pub open spec fn wf(self) -> bool {
        &&& WALL_MIN <= self.wall() <= WALL_MAX
        &&& resolved(self.wall()) matches Some(i) && i == self.instant()
        &&& within_a_day(self.wall(), self.instant())
        &&& stamp_text(STAMP_FORMAT@, self.wall()) matches Some(text) && unbroken(text)
    }

    /// The timestamp of a reading, where it has one.
    pub closed spec fn at_wall(wall: int) -> Option<Timestamp> {
        if WALL_MIN <= wall <= WALL_MAX {
            match (resolved(wall), stamp_text(STAMP_FORMAT@, wall)) {
                (Some(i), Some(text)) => if unbroken(text) && within_a_day(wall, i as int) {
                    Some(Timestamp { wall: wall as i64, instant: i })
                } else {
                    None
                },
                _ => None,
            }
        } else {
            None
        }
    }

    /// The timestamp of a day and minute, where it has one.
    pub open spec fn at(year: int, month: int, day: int, hour: int, minute: int) -> Option<
        Timestamp,
    > {
        match wall_of(year, month, day, hour, minute) {
            Some(w) => Self::at_wall(w),
            None => None,
        }
    }

    /// `at_wall` gives a well-formed timestamp with the reading asked for,
    /// and gives one exactly where the reading is in range, its zone's
    /// clocks showed it, and it can be written.
    pub proof fn lemma_at_wall(wall: int)
        ensures
            Self::at_wall(wall) is Some <==> WALL_MIN <= wall <= WALL_MAX && (resolved(
                wall,
            ) matches Some(i) && within_a_day(wall, i as int)) && (stamp_text(
                STAMP_FORMAT@,
                wall,
            ) matches Some(text) && unbroken(text)),
            Self::at_wall(wall) matches Some(t) ==> t.wf() && t.wall() == wall,
    {
    }

    /// Two well-formed timestamps with the same reading are the same.
    pub proof fn lemma_reading_decides(a: Timestamp, b: Timestamp)
        requires
            a.wf(),
            b.wf(),
            a.wall() == b.wall(),
        ensures
            a == b,
    {
    }

    /// Of two readings two days apart or more, the earlier one denotes the
    /// earlier moment, whatever the zones of the two.
    pub proof fn lemma_days_apart(a: Timestamp, b: Timestamp)
        requires
            a.wf(),
            b.wf(),
            a.wall() + 2 * 86400 <= b.wall(),
        ensures
            a.instant() < b.instant(),
    {
    }

    /// On one day, a later minute is a later reading, by sixty seconds a
    /// minute.
    pub proof fn lemma_same_day(
        year: int,
        month: int,
        day: int,
        hour: int,
        minute: int,
        later_hour: int,
        later_minute: int,
    )
        requires
            wall_of(year, month, day, hour, minute) is Some,
            wall_of(year, month, day, later_hour, later_minute) is Some,
        ensures
            wall_of(year, month, day, later_hour, later_minute)->0 - wall_of(
                year,
                month,
                day,
                hour,
                minute,
            )->0 == ((later_hour * 60 + later_minute) - (hour * 60 + minute)) * 60,
    {
    }

    /// The moment that is taken of those that a reading can denote.
    pub fn pick(instants: &Vec<i64>) -> (r: Option<i64>)
        ensures
            r == picked(instants@),
    {
        let first: Option<i64> = if instants.len() >= 1 {
            Some(instants[0])
        } else {
            None
        };
        let last: Option<i64> = if instants.len() >= 2 {
            Some(instants[1])
        } else if instants.len() == 1 {
            Some(instants[0])
        } else {
            None
        };
        match first {
            Some(i) => Some(i),
            None => last,
        }
    }

    /// The timestamp of the reading `wall`, unless the reading is out of
    /// range, its zone's clocks never showed it, or it cannot be written.
    pub fn from_wall(wall: i64) -> (r: Option<Timestamp>)
        ensures
            r == Self::at_wall(wall as int),
    {
        if wall < WALL_MIN || wall > WALL_MAX {
            return None;
        }
        let zone = if wall < ZONE_CUTOFF {
            Zone::Pacific
        } else {
            Zone::Berlin
        };
        let instants = instants_in(zone, wall);
        let instant = match Self::pick(&instants) {
            Some(instant) => instant,
            None => { return None; },
        };
        match format_wall(STAMP_FORMAT, wall) {
            Some(_) => Some(Timestamp { wall, instant }),
            None => None,
        }
    }

    /// The timestamp of a day and minute, unless the calendar has no such
    /// day or minute, the year is out of range, the zone's clocks never
    /// showed the reading, or it cannot be written.
    pub fn new(year: i32, month: u32, day: u32, hour: u32, minute: u32) -> (r: Option<Timestamp>)
        ensures
            r == Self::at(year as int, month as int, day as int, hour as int, minute as int),
    {
        let number = match day_from_fields(year, month, day) {
            Some(number) => number,
            None => { return None; },
        };
        if hour >= 24 || minute >= 60 {
            return None;
        }
        let wall: i64 = (number as i64 - EPOCH_DAY) * 86400 + (hour as i64) * 3600 + (minute as i64)
            * 60;
        Self::from_wall(wall)
    }

    /// The reading, in seconds from 1970-01-01 00:00 on the wall clock.
    pub fn wall_seconds(&self) -> (r: i64)
        ensures
            r == self.wall(),
            self.wf(),
    {
        proof {
            use_type_invariant(self);
        }
        self.wall
    }

    /// The moment, in seconds since the Unix epoch.
    pub fn instant_seconds(&self) -> (r: i64)
        ensures
            r == self.instant(),
            self.wf(),
    {
        proof {
            use_type_invariant(self);
        }
        self.instant
    }

    /// The zone that the reading belongs to.
    pub fn zone(&self) -> (r: Zone)
        ensures
            r == zone_of(self.wall()),
    {
        if self.wall < ZONE_CUTOFF {
            Zone::Pacific
        } else {
            Zone::Berlin
        }
    }

    /// The reading as it is written in a record, without the brackets.
    pub fn to_text(&self) -> (r: String)
        ensures
            r@ == reading_text(self.wall()),
            unbroken(r@),
    {
        proof {
            use_type_invariant(self);
        }
        format_wall(STAMP_FORMAT, self.wall).unwrap()
    }
}

} // verus!
