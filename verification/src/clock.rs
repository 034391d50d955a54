//! Clock records: a start, an optional end, and the duration as written.

use crate::pattern::{captured, group_texts, opt_group_texts, Grammar, CLOCK};
use crate::text::{
    chars_of, decimal_text, ends_with, find_char, lemma_decimal_text_unbroken, lemma_padded_left_unbroken,
    lemma_unbroken_joined, opt_text, padded_left, parse_signed, parse_unsigned, position_of,
    push_decimal, push_padded_left, same_text, signed_of, string_of, text_ends_with, unbroken,
    unsigned_of,
};
use crate::timestamp::{current_instant, reading_text, Timestamp};
use vstd::prelude::*;

verus! {

/// The two ways to bracket a timestamp.
#[derive(Debug, Clone, Copy, Hash, PartialEq, Eq, Structural)]
pub enum TimestampType {
    /// Between `<` and `>`.
    Active,
    /// Between `[` and `]`.
    Inactive,
}

impl TimestampType {
    /// The bracket in front of a timestamp of this type.
    pub open spec fn open_mark(self) -> char {
        match self {
            TimestampType::Active => '<',
            TimestampType::Inactive => '[',
        }
    }

    /// The bracket behind a timestamp of this type.
    pub open spec fn close_mark(self) -> char {
        match self {
            TimestampType::Active => '>',
            TimestampType::Inactive => ']',
        }
    }

    /// The type that the opening bracket text `mark` stands for: active for
    /// `<`, inactive for anything else.
    pub open spec fn of_mark(mark: Seq<char>) -> TimestampType {
        if mark.len() > 0 && mark[0] == '<' {
            TimestampType::Active
        } else {
            TimestampType::Inactive
        }
    }

    /// The bracket in front of a timestamp of this type.
    pub fn open(&self) -> (c: char)
        ensures
            c == self.open_mark(),
    {
        match self {
            TimestampType::Active => '<',
            TimestampType::Inactive => '[',
        }
    }

    /// The bracket behind a timestamp of this type.
    pub fn close(&self) -> (c: char)
        ensures
            c == self.close_mark(),
    {
        match self {
            TimestampType::Active => '>',
            TimestampType::Inactive => ']',
        }
    }

    /// The type that an opening bracket stands for.
    pub fn from_mark(mark: &str) -> (t: TimestampType)
        ensures
            t == Self::of_mark(mark@),
    {
        if mark.unicode_len() > 0 && mark.get_char(0) == '<' {
            TimestampType::Active
        } else {
            TimestampType::Inactive
        }
    }
}

/// Why a line gave no clock record.
#[derive(Debug, Clone, Copy, PartialEq, Eq, Structural)]
pub enum ClockError {
    /// The line does not have the shape of a record.
    NotAClock,
    /// The digits of the start name no day and minute that a timestamp can
    /// hold.
    InvalidStart,
    /// The digits of the end name no day and minute that a timestamp can
    /// hold.
    InvalidEnd,
}

/// One clock record of a document.
#[derive(Debug, Clone, Hash, PartialEq, Eq)]
pub struct Clock {
    /// The line of the source text it stands on, counted from 1.
    pub line: usize,
    /// The index of the heading it belongs to in the document's list.
    pub parent: usize,
    /// The duration as the line writes it behind `=>`.
    pub duration_string: Option<String>,
    /// When the clock was started.
    pub start: Timestamp,
    /// When it was stopped; `None` while it runs.
    pub end: Option<Timestamp>,
    /// How the line brackets its timestamps.
    pub timestamp_type: TimestampType,
}

/// A clock record as a plain value.
pub struct ClockView {
    pub line: usize,
    pub parent: usize,
    pub duration_string: Option<Seq<char>>,
    pub start: Timestamp,
    pub end: Option<Timestamp>,
    pub timestamp_type: TimestampType,
}

impl View for Clock {
    type V = ClockView;

    open spec fn view(&self) -> ClockView {
        ClockView {
            line: self.line,
            parent: self.parent,
            duration_string: opt_text(self.duration_string),
            start: self.start,
            end: self.end,
            timestamp_type: self.timestamp_type,
        }
    }
}

// ---------------------------------------------------------------------------
// What a line writes
// ---------------------------------------------------------------------------

/// The number that a field of a timestamp writes, if it is made of ASCII
/// digits and stays at or below `limit`.
pub open spec fn field_value(text: Seq<char>, limit: int) -> Option<int> {
    match unsigned_of(text) {
        Some(n) => if n <= limit {
            Some(n as int)
        } else {
            None
        },
        None => None,
    }
}

/// The timestamp that five fields of digits write.
pub open spec fn stamp_of(
    year: Seq<char>,
    month: Seq<char>,
    day: Seq<char>,
    hour: Seq<char>,
    minute: Seq<char>,
) -> Option<Timestamp> {
    match (
        field_value(year, i32::MAX as int),
        field_value(month, u32::MAX as int),
        field_value(day, u32::MAX as int),
        field_value(hour, u32::MAX as int),
        field_value(minute, u32::MAX as int),
    ) {
        (Some(y), Some(mo), Some(d), Some(h), Some(mi)) => Timestamp::at(y, mo, d, h, mi),
        _ => None,
    }
}

/// Whether the five groups from `from` on all took part in the match.
pub open spec fn five_present(groups: Seq<Option<Seq<char>>>, from: int) -> bool {
    &&& groups[from] is Some
    &&& groups[from + 1] is Some
    &&& groups[from + 2] is Some
    &&& groups[from + 3] is Some
    &&& groups[from + 4] is Some
}

/// The timestamp that the five groups from `from` on write.
pub open spec fn stamp_in(groups: Seq<Option<Seq<char>>>, from: int) -> Option<Timestamp> {
    stamp_of(
        groups[from]->0,
        groups[from + 1]->0,
        groups[from + 2]->0,
        groups[from + 3]->0,
        groups[from + 4]->0,
    )
}

/// A timestamp that groups write is well formed.
pub proof fn lemma_stamp_in_wf(groups: Seq<Option<Seq<char>>>, from: int)
    ensures
        stamp_in(groups, from) matches Some(t) ==> t.wf(),
{
    if let Some(t) = stamp_in(groups, from) {
        let y = field_value(groups[from]->0, i32::MAX as int)->0;
        let mo = field_value(groups[from + 1]->0, u32::MAX as int)->0;
        let d = field_value(groups[from + 2]->0, u32::MAX as int)->0;
        let h = field_value(groups[from + 3]->0, u32::MAX as int)->0;
        let mi = field_value(groups[from + 4]->0, u32::MAX as int)->0;
        Timestamp::lemma_at_wall(crate::timestamp::wall_of(y, mo, d, h, mi)->0);
    }
}

/// The record that the clock grammar's groups write: the opening bracket,
/// five fields of the start, five of the end if there is one, and the
/// duration if there is one. A start or an end whose digits give no
/// timestamp is an error of its own.
pub open spec fn clock_in(groups: Seq<Option<Seq<char>>>) -> Result<ClockView, ClockError> {
    if groups.len() != 13 || groups[1] is None || !five_present(groups, 2) {
        Err(ClockError::NotAClock)
    } else {
        match stamp_in(groups, 2) {
            None => Err(ClockError::InvalidStart),
            Some(start) => if five_present(groups, 7) {
                match stamp_in(groups, 7) {
                    None => Err(ClockError::InvalidEnd),
                    Some(end) => Ok(
                        ClockView {
                            line: 0,
                            parent: 0,
                            duration_string: groups[12],
                            start,
                            end: Some(end),
                            timestamp_type: TimestampType::of_mark(groups[1]->0),
                        },
                    ),
                }
            } else {
                Ok(
                    ClockView {
                        line: 0,
                        parent: 0,
                        duration_string: groups[12],
                        start,
                        end: None,
                        timestamp_type: TimestampType::of_mark(groups[1]->0),
                    },
                )
            },
        }
    }
}

/// The record that a line writes, or why it writes none.
pub open spec fn clock_of(line: Seq<char>) -> Result<ClockView, ClockError> {
    match captured(CLOCK@, line) {
        Some(groups) => clock_in(groups),
        None => Err(ClockError::NotAClock),
    }
}

// ---------------------------------------------------------------------------
// Durations
// ---------------------------------------------------------------------------

/// The number that a part of a written duration stands for: what it writes
/// if that fits in 64 bits, else zero.
pub open spec fn part_value(text: Seq<char>) -> int {
    match signed_of(text) {
        Some(n) => if i64::MIN <= n <= i64::MAX {
            n
        } else {
            0
        },
        None => 0,
    }
}

/// The seconds that a written duration stands for: hours before the first
/// colon, minutes behind it, negative as a whole where the text starts with
/// a minus sign. `None` where the text has no colon.
pub open spec fn written_seconds(text: Seq<char>) -> Option<int> {
    let colon = find_char(text, ':', 0);
    if colon >= text.len() {
        None
    } else {
        let hours = part_value(text.subrange(0, colon));
        let minutes = part_value(text.subrange(colon + 1, text.len() as int));
        let total = (if hours < 0 {
            -hours
        } else {
            hours
        }) * 3600 + minutes * 60;
        if text[0] == '-' {
            Some(-total)
        } else {
            Some(total)
        }
    }
}

/// A number below one hundred in two digits.
pub open spec fn two_digits(n: nat) -> Seq<char> {
    if n < 10 {
        seq!['0'] + decimal_text(n)
    } else {
        decimal_text(n)
    }
}

/// A span of seconds as hours and minutes: a minus sign where it is
/// negative, the full hours, a colon, and the minutes left over in two
/// digits. Seconds left over are not written.
pub open spec fn duration_text(seconds: int) -> Seq<char> {
    let size = if seconds < 0 {
        -seconds
    } else {
        seconds
    };
    let body = decimal_text((size / 3600) as nat) + seq![':'] + two_digits(((size / 60) % 60) as nat);
    if seconds < 0 {
        seq!['-'] + body
    } else {
        body
    }
}

/// What there is to say of a record to the person who keeps the file.
#[derive(Debug, Clone, Copy, PartialEq, Eq, Structural)]
pub struct ClockFindings {
    /// The written duration is not the time that passed.
    pub duration_mismatch: bool,
    /// The record is longer than the limit.
    pub long_duration: bool,
    /// The clock is still running.
    pub running: bool,
    /// The end lies before the start.
    pub negative_duration: bool,
    /// The record has an end, and it is its start.
    pub zero_duration: bool,
}

/// Why a text gives no limit for the length of a record.
#[derive(Debug, Clone, Copy, PartialEq, Eq, Structural)]
pub enum LimitError {
    /// The text has no colon.
    NoColon,
    /// What stands before the colon is no number.
    Hours,
    /// What stands behind the colon is no number.
    Minutes,
    /// The limit does not fit in 64 bits of seconds.
    TooLong,
}

/// The number that a part of a limit writes, if it fits in 64 bits.
pub open spec fn limit_part(text: Seq<char>) -> Option<int> {
    match signed_of(text) {
        Some(n) => if i64::MIN <= n <= i64::MAX {
            Some(n)
        } else {
            None
        },
        None => None,
    }
}

/// The seconds of a limit written as hours, a colon and minutes.
pub open spec fn limit_of(text: Seq<char>) -> Result<int, LimitError> {
    let colon = find_char(text, ':', 0);
    if colon >= text.len() {
        Err(LimitError::NoColon)
    } else {
        match limit_part(text.subrange(0, colon)) {
            None => Err(LimitError::Hours),
            Some(hours) => match limit_part(text.subrange(colon + 1, text.len() as int)) {
                None => Err(LimitError::Minutes),
                Some(minutes) => {
                    let seconds = hours * 3600 + minutes * 60;
                    if i64::MIN <= seconds <= i64::MAX {
                        Ok(seconds)
                    } else {
                        Err(LimitError::TooLong)
                    }
                },
            },
        }
    }
}

impl ClockView {
    /// A record without an end is running.
    pub open spec fn is_running(self) -> bool {
        self.end is None
    }

    /// The seconds between start and end on the wall clock, zero for a
    /// running record.
    pub open spec fn duration(self) -> int {
        match self.end {
            Some(end) => end.wall() - self.start.wall(),
            None => 0,
        }
    }

    /// The seconds that passed between the moments of start and end.
    pub open spec fn elapsed(self) -> int {
        match self.end {
            Some(end) => end.instant() - self.start.instant(),
            None => 0,
        }
    }

    /// Whether the written duration is the time that passed. A running
    /// record has nothing to compare yet and matches.
    pub open spec fn matches_duration(self) -> bool {
        self.is_running() || (self.duration_string matches Some(text) && written_seconds(text)
            == Some(self.elapsed()))
    }

    /// What there is to say of the record, given the length in seconds
    /// beyond which a record counts as long.
    pub open spec fn findings(self, limit: int) -> ClockFindings {
        ClockFindings {
            duration_mismatch: !self.matches_duration(),
            long_duration: self.duration() > limit,
            running: self.is_running(),
            negative_duration: self.duration() < 0,
            zero_duration: self.duration() == 0 && !self.is_running(),
        }
    }

    /// The moment at which the record ends: its end, or `now` while it runs.
    pub open spec fn end_or(self, now: int) -> int {
        match self.end {
            Some(end) => end.instant(),
            None => now,
        }
    }

    /// Whether the record ends before `other` does. Two ends that are
    /// written are compared as they are written, by their readings. A
    /// running record ends at the moment `now`, and is compared with the
    /// moment of the other's end.
    pub open spec fn ends_before(self, other: ClockView, now: int) -> bool {
        match (self.end, other.end) {
            (Some(a), Some(b)) => a.wall() < b.wall(),
            _ => self.end_or(now) < other.end_or(now),
        }
    }

    /// Whether the half-open intervals of two records share a moment.
    pub open spec fn overlaps(self, other: ClockView, now: int) -> bool {
        !(self.end_or(now) <= other.start.instant() || self.start.instant() >= other.end_or(now))
    }

    /// The record as text: the start in its brackets and, for a record with
    /// an end, two dashes, the end in its brackets, ` => ` and the duration
    /// right-aligned in five characters.
    pub open spec fn text(self) -> Seq<char> {
        let start = seq![self.timestamp_type.open_mark()] + reading_text(self.start.wall())
            + seq![self.timestamp_type.close_mark()];
        match self.end {
            Some(end) => start + seq!['-', '-'] + seq![self.timestamp_type.open_mark()]
                + reading_text(end.wall()) + seq![self.timestamp_type.close_mark()] + seq![
                ' ',
                '=',
                '>',
                ' ',
            ] + padded_left(duration_text(self.duration()), 5),
            None => start,
        }
    }

    /// Whether both timestamps are well formed.
    pub open spec fn wf(self) -> bool {
        &&& self.start.wf()
        &&& self.end matches Some(end) ==> end.wf()
    }
}

/// The text of a well-formed record holds neither line feed nor carriage
/// return.
pub proof fn lemma_text_unbroken(clock: ClockView)
    requires
        clock.wf(),
    ensures
        unbroken(clock.text()),
{
    let open = seq![clock.timestamp_type.open_mark()];
    let close = seq![clock.timestamp_type.close_mark()];
    let first = reading_text(clock.start.wall());
    lemma_unbroken_joined(open, first);
    lemma_unbroken_joined(open + first, close);
    if let Some(end) = clock.end {
        let second = reading_text(end.wall());
        let arrow = seq![' ', '=', '>', ' '];
        let span = duration_text(clock.duration());
        let size = if clock.duration() < 0 {
            -clock.duration()
        } else {
            clock.duration()
        };
        let hours = decimal_text((size / 3600) as nat);
        let minutes = two_digits(((size / 60) % 60) as nat);
        lemma_decimal_text_unbroken((size / 3600) as nat);
        lemma_decimal_text_unbroken(((size / 60) % 60) as nat);
        lemma_unbroken_joined(seq!['0'], decimal_text(((size / 60) % 60) as nat));
        lemma_unbroken_joined(hours, seq![':']);
        lemma_unbroken_joined(hours + seq![':'], minutes);
        lemma_unbroken_joined(seq!['-'], hours + seq![':'] + minutes);
        lemma_padded_left_unbroken(span, 5);
        let a = open + first + close;
        lemma_unbroken_joined(a, seq!['-', '-']);
        lemma_unbroken_joined(a + seq!['-', '-'], open);
        lemma_unbroken_joined(a + seq!['-', '-'] + open, second);
        lemma_unbroken_joined(a + seq!['-', '-'] + open + second, close);
        lemma_unbroken_joined(a + seq!['-', '-'] + open + second + close, arrow);
        lemma_unbroken_joined(
            a + seq!['-', '-'] + open + second + close + arrow,
            padded_left(span, 5),
        );
    }
}

/// A record does not overlap one that starts two days or more after its
/// end on the wall clock, whatever the zones of the two readings.
pub proof fn lemma_days_apart_are_apart(a: ClockView, b: ClockView, now: int)
    requires
        a.wf(),
        b.wf(),
        a.end matches Some(end) && end.wall() + 2 * 86400 <= b.start.wall(),
    ensures
        !a.overlaps(b, now),
        !b.overlaps(a, now),
{
    Timestamp::lemma_days_apart(a.end->0, b.start);
}

/// A record never overlaps one that starts exactly when it ends, whichever
/// of the two is asked.
pub proof fn lemma_adjacent_records_are_apart(a: ClockView, b: ClockView, now: int)
    requires
        a.end == Some(b.start),
    ensures
        !a.overlaps(b, now),
        !b.overlaps(a, now),
{
}

/// A record never overlaps one whose start shows the reading that its own
/// end shows.
pub proof fn lemma_adjacent_readings_are_apart(a: ClockView, b: ClockView, now: int)
    requires
        a.wf(),
        b.wf(),
        a.end matches Some(end) && end.wall() == b.start.wall(),
    ensures
        !a.overlaps(b, now),
        !b.overlaps(a, now),
{
    Timestamp::lemma_reading_decides(a.end->0, b.start);
}

/// Overlapping does not depend on which record is asked.
pub proof fn lemma_overlaps_symmetric(a: ClockView, b: ClockView, now: int)
    ensures
        a.overlaps(b, now) == b.overlaps(a, now),
{
}

// ---------------------------------------------------------------------------
// Executable
// ---------------------------------------------------------------------------

/// Reads a field of a timestamp.
fn read_field(text: &str, limit: u32) -> (r: Option<u32>)
    ensures
        match r {
            Some(n) => field_value(text@, limit as int) == Some(n as int),
            None => field_value(text@, limit as int) is None,
        },
{
    match parse_unsigned(text) {
        Some(n) => if n <= limit {
            Some(n)
        } else {
            None
        },
        None => None,
    }
}

/// The number that a part of a written duration stands for.
fn read_part(v: &Vec<char>, from: usize, to: usize) -> (r: i64)
    requires
        from <= to <= v.len(),
    ensures
        r == part_value(v@.subrange(from as int, to as int)),
{
    let part = string_of(v, from, to);
    match parse_signed(part.as_str()) {
        Some(n) => n,
        None => 0,
    }
}

/// Appends a span of seconds as hours and minutes.
fn push_duration(out: &mut String, seconds: i64)
    requires
        seconds > i64::MIN,
    ensures
        final(out)@ == old(out)@ + duration_text(seconds as int),
{
    let size: u64 = if seconds < 0 {
        (-seconds) as u64
    } else {
        seconds as u64
    };
    if seconds < 0 {
        out.push('-');
    }
    push_decimal(out, size / 3600);
    out.push(':');
    let minutes: u64 = (size / 60) % 60;
    if minutes < 10 {
        out.push('0');
    }
    push_decimal(out, minutes);
    assert(out@ =~= old(out)@ + duration_text(seconds as int));
}

impl Clock {
    /// The timestamp that five fields of digits write.
    pub fn stamp(year: &str, month: &str, day: &str, hour: &str, minute: &str) -> (r: Option<
        Timestamp,
    >)
        ensures
            r == stamp_of(year@, month@, day@, hour@, minute@),
    {
        let y = match read_field(year, 0x7fff_ffff) {
            Some(y) => y,
            None => { return None; },
        };
        let mo = match read_field(month, 0xffff_ffff) {
            Some(mo) => mo,
            None => { return None; },
        };
        let d = match read_field(day, 0xffff_ffff) {
            Some(d) => d,
            None => { return None; },
        };
        let h = match read_field(hour, 0xffff_ffff) {
            Some(h) => h,
            None => { return None; },
        };
        let mi = match read_field(minute, 0xffff_ffff) {
            Some(mi) => mi,
            None => { return None; },
        };
        Timestamp::new(y as i32, mo, d, h, mi)
    }

    /// The timestamp that the five groups from `from` on write; `None` in
    /// the first place where one of them is missing, in the second where
    /// their digits give no timestamp.
    fn stamp_at(groups: &Vec<Option<String>>, from: usize) -> (r: Option<Option<Timestamp>>)
        requires
            from + 5 <= groups.len(),
        ensures
            r is Some == five_present(group_texts(groups@), from as int),
            r matches Some(t) ==> t == stamp_in(group_texts(groups@), from as int),
    {
        match (
            &groups[from],
            &groups[from + 1],
            &groups[from + 2],
            &groups[from + 3],
            &groups[from + 4],
        ) {
            (Some(y), Some(mo), Some(d), Some(h), Some(mi)) => Some(
                Self::stamp(y.as_str(), mo.as_str(), d.as_str(), h.as_str(), mi.as_str()),
            ),
            _ => None,
        }
    }

    /// The record that the clock grammar's groups write. Line and parent are
    /// left at 0.
    pub fn from_groups(groups: &Vec<Option<String>>) -> (r: Result<Clock, ClockError>)
        ensures
            match r {
                Ok(clock) => clock_in(group_texts(groups@)) == Ok::<ClockView, ClockError>(clock@),
                Err(e) => clock_in(group_texts(groups@)) == Err::<ClockView, ClockError>(e),
            },
    {
        if groups.len() != 13 {
            return Err(ClockError::NotAClock);
        }
        let timestamp_type = match &groups[1] {
            Some(mark) => TimestampType::from_mark(mark.as_str()),
            None => { return Err(ClockError::NotAClock); },
        };
        let start = match Self::stamp_at(groups, 2) {
            Some(Some(start)) => start,
            Some(None) => { return Err(ClockError::InvalidStart); },
            None => { return Err(ClockError::NotAClock); },
        };
        let end = match Self::stamp_at(groups, 7) {
            Some(Some(end)) => Some(end),
            Some(None) => { return Err(ClockError::InvalidEnd); },
            None => None,
        };
        let duration_string = match &groups[12] {
            Some(text) => Some(text.clone()),
            None => None,
        };
        Ok(Clock { line: 0, parent: 0, duration_string, start, end, timestamp_type })
    }

    /// Reads a record from a line. Line and parent are left at 0 for whoever
    /// places the record in a document.
    pub fn parse(grammar: &Grammar, s: &str) -> (r: Result<Clock, ClockError>)
        ensures
            match r {
                Ok(clock) => clock_of(s@) == Ok::<ClockView, ClockError>(clock@),
                Err(e) => clock_of(s@) == Err::<ClockView, ClockError>(e),
            },
    {
        match grammar.clock(s) {
            Some(groups) => Self::from_groups(&groups),
            None => Err(ClockError::NotAClock),
        }
    }

    /// A copy of this record.
    pub fn duplicate(&self) -> (r: Clock)
        ensures
            r@ == self@,
    {
        Clock {
            line: self.line,
            parent: self.parent,
            duration_string: match &self.duration_string {
                Some(text) => Some(text.clone()),
                None => None,
            },
            start: self.start,
            end: self.end,
            timestamp_type: self.timestamp_type,
        }
    }

    /// Whether the clock is still running.
    pub fn is_running(&self) -> (r: bool)
        ensures
            r == self@.is_running(),
    {
        self.end.is_none()
    }

    /// The seconds between start and end on the wall clock, zero for a
    /// running record. Negative where the end lies before the start.
    pub fn duration(&self) -> (r: i64)
        ensures
            r == self@.duration(),
            self@.wf(),
    {
        let start = self.start.wall_seconds();
        match &self.end {
            Some(end) => end.wall_seconds() - start,
            None => 0,
        }
    }

    /// The duration as hours and minutes.
    pub fn duration_formatted(&self) -> (r: String)
        ensures
            r@ == duration_text(self@.duration()),
    {
        let mut out = String::new();
        push_duration(&mut out, self.duration());
        out
    }

    /// The seconds that a written duration stands for.
    pub fn written(text: &str) -> (r: Option<i128>)
        ensures
            match r {
                Some(n) => written_seconds(text@) == Some(n as int),
                None => written_seconds(text@) is None,
            },
    {
        let v = chars_of(text);
        let colon = position_of(&v, ':');
        if colon >= v.len() {
            return None;
        }
        let hours = read_part(&v, 0, colon);
        let minutes = read_part(&v, colon + 1, v.len());
        let size: i128 = if hours < 0 {
            -(hours as i128)
        } else {
            hours as i128
        };
        let total: i128 = size * 3600 + (minutes as i128) * 60;
        if v[0] == '-' {
            Some(-total)
        } else {
            Some(total)
        }
    }

    /// Whether the written duration is the time that passed between the
    /// moments of start and end. A running record always matches.
    pub fn matches_duration(&self) -> (r: bool)
        ensures
            r == self@.matches_duration(),
            self@.is_running() ==> r,
    {
        let end = match &self.end {
            Some(end) => end.instant_seconds(),
            None => { return true; },
        };
        let text = match &self.duration_string {
            Some(text) => text,
            None => { return false; },
        };
        let elapsed: i128 = end as i128 - self.start.instant_seconds() as i128;
        match Self::written(text.as_str()) {
            Some(n) => n == elapsed,
            None => false,
        }
    }

    /// What there is to say of the record, given the length in seconds
    /// beyond which a record counts as long.
    pub fn findings(&self, limit: i64) -> (r: ClockFindings)
        ensures
            r == self@.findings(limit as int),
    {
        let duration = self.duration();
        let running = self.is_running();
        ClockFindings {
            duration_mismatch: !self.matches_duration(),
            long_duration: duration > limit,
            running,
            negative_duration: duration < 0,
            zero_duration: duration == 0 && !running,
        }
    }

    /// The seconds of a limit written as hours, a colon and minutes.
    pub fn limit(text: &str) -> (r: Result<i64, LimitError>)
        ensures
            match r {
                Ok(seconds) => limit_of(text@) == Ok::<int, LimitError>(seconds as int),
                Err(e) => limit_of(text@) == Err::<int, LimitError>(e),
            },
    {
        let v = chars_of(text);
        let colon = position_of(&v, ':');
        if colon >= v.len() {
            return Err(LimitError::NoColon);
        }
        let hours = match parse_signed(string_of(&v, 0, colon).as_str()) {
            Some(hours) => hours,
            None => { return Err(LimitError::Hours); },
        };
        let minutes = match parse_signed(string_of(&v, colon + 1, v.len()).as_str()) {
            Some(minutes) => minutes,
            None => { return Err(LimitError::Minutes); },
        };
        let seconds: i128 = (hours as i128) * 3600 + (minutes as i128) * 60;
        if seconds < i64::MIN as i128 || seconds > i64::MAX as i128 {
            return Err(LimitError::TooLong);
        }
        Ok(seconds as i64)
    }

    /// Whether the intervals of two records share a moment, a running
    /// record ending at the moment `now`. A record that ends exactly where
    /// the other starts does not overlap it.
    pub fn overlaps_at(&self, other: &Clock, now: i64) -> (r: bool)
        ensures
            r == self@.overlaps(other@, now as int),
    {
        let end = match &self.end {
            Some(end) => end.instant_seconds(),
            None => now,
        };
        let other_end = match &other.end {
            Some(end) => end.instant_seconds(),
            None => now,
        };
        !(end <= other.start.instant_seconds() || self.start.instant_seconds() >= other_end)
    }

    /// Whether the record ends before `other` does: by the readings where
    /// both have an end, else with a running record ending at the moment
    /// `now`.
    pub fn ends_before_at(&self, other: &Clock, now: i64) -> (r: bool)
        ensures
            r == self@.ends_before(other@, now as int),
    {
        match (&self.end, &other.end) {
            (Some(a), Some(b)) => a.wall_seconds() < b.wall_seconds(),
            (Some(a), None) => a.instant_seconds() < now,
            (None, Some(b)) => now < b.instant_seconds(),
            (None, None) => false,
        }
    }

    /// Whether the intervals of two records share a moment, a running
    /// record ending at the present moment.
    pub fn overlaps(&self, other: &Clock) -> (r: bool)
        ensures
            exists|now: i64| r == #[trigger] self@.overlaps(other@, now as int),
            !self@.is_running() && !other@.is_running() ==> r == self@.overlaps(other@, 0),
    {
        let now = current_instant();
        let r = self.overlaps_at(other, now);
        assert(r == self@.overlaps(other@, now as int));
        r
    }

    /// The record as text, as it stands behind `CLOCK: ` on a line.
    pub fn to_text(&self) -> (r: String)
        ensures
            r@ == self@.text(),
    {
        let mut out = String::new();
        out.push(self.timestamp_type.open());
        out.append(self.start.to_text().as_str());
        out.push(self.timestamp_type.close());
        if let Some(end) = &self.end {
            out.push('-');
            out.push('-');
            out.push(self.timestamp_type.open());
            out.append(end.to_text().as_str());
            out.push(self.timestamp_type.close());
            out.push(' ');
            out.push('=');
            out.push('>');
            out.push(' ');
            let duration = self.duration_formatted();
            push_padded_left(&mut out, duration.as_str(), 5);
        }
        assert(out@ =~= self@.text());
        out
    }
}

/// A record that is known to be long, and is not to be reported as such:
/// the end of its file's name, its heading's title and its duration as
/// written.
#[derive(Debug, Clone, Copy)]
pub struct KnownLongDuration {
    pub file: &'static str,
    pub duration: &'static str,
    pub title: &'static str,
}

impl KnownLongDuration {
    /// Whether this is the record of the file `file_name` under the heading
    /// `title` with the duration `duration`: the file's name must end with
    /// the known one, title and duration must be the known ones.
    pub open spec fn covers(self, file_name: Seq<char>, title: Seq<char>, duration: Seq<char>)
        -> bool {
        ends_with(file_name, self.file@) && title == self.title@ && duration == self.duration@
    }

    /// Whether this is the record of the file `file_name` under the heading
    /// `title` with the duration `duration`.
    pub fn excuses(&self, file_name: &str, title: &str, duration: &str) -> (r: bool)
        ensures
            r == self.covers(file_name@, title@, duration@),
    {
        text_ends_with(file_name, self.file) && same_text(title, self.title) && same_text(
            duration,
            self.duration,
        )
    }

    /// Whether one of `known` is the record of the file `file_name` under
    /// the heading `title` with the duration `duration`.
    pub fn any_excuses(
        known: &[KnownLongDuration],
        file_name: &str,
        title: &str,
        duration: &str,
    ) -> (r: bool)
        ensures
            r == exists|i: int|
                0 <= i < known@.len() && (#[trigger] known@[i]).covers(
                    file_name@,
                    title@,
                    duration@,
                ),
    {
        let mut i: usize = 0;
        while i < known.len()
            invariant
                i <= known.len(),
                forall|k: int|
                    0 <= k < i ==> !(#[trigger] known@[k]).covers(file_name@, title@, duration@),
            decreases known.len() - i,
        {
            if known[i].excuses(file_name, title, duration) {
                return true;
            }
            i += 1;
        }
        false
    }
}

} // verus!
