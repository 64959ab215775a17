//! The records of a fixed-width timetable file and their decoders.
//!
//! Every line of such a file starts with a two-letter record type. Five types
//! are decoded:
//!
//! * `QS`, the header of a journey;
//! * `QO`, `QI` and `QT`, the origin, the intermediate stops and the
//!   destination of the journey whose header came before them;
//! * `QL`, the name of a stop.
//!
//! Lines of any other type are passed over. Each decoder is specified by a
//! `spec` function that reads the columns of the line; the columns of every
//! field are named constants below.

use crate::atco::{mapped_code, starts_with_999, Atco, AtcoMap};
use crate::public_transport_mode::{mode_named, PublicTransportMode};
use crate::text::{
    all_digits, chars_of, decimal_value, field_is, is_digit, lemma_decimal_value_bound,
    lemma_pow10_values, parse_decimal, trim, trimmed_field, trimmed_field_without_commas,
    without_commas,
};
use vstd::prelude::*;

verus! {

// Columns of the record type, in every line.
pub const KIND_FROM: usize = 0;

pub const KIND_TO: usize = 2;

// Columns of a journey header (`QS`).
pub const QS_STATUS: usize = 2;

pub const QS_OPERATOR_FROM: usize = 3;

pub const QS_OPERATOR_TO: usize = 7;

pub const QS_JOURNEY_FROM: usize = 7;

pub const QS_JOURNEY_TO: usize = 13;

pub const QS_FIRST_DATE_FROM: usize = 13;

pub const QS_FIRST_DATE_TO: usize = 21;

pub const QS_LAST_DATE_FROM: usize = 21;

pub const QS_LAST_DATE_TO: usize = 29;

pub const QS_DAYS_FROM: usize = 29;

pub const QS_DAYS_TO: usize = 36;

pub const QS_ROUTE_FROM: usize = 38;

pub const QS_ROUTE_TO: usize = 42;

pub const QS_VEHICLE_FROM: usize = 48;

pub const QS_VEHICLE_TO: usize = 56;

pub const QS_WIDTH: usize = 56;

// Columns of the stops of a journey (`QO`, `QI`, `QT`).
pub const STOP_CODE_FROM: usize = 2;

pub const STOP_CODE_TO: usize = 14;

pub const STOP_TIME_FROM: usize = 14;

pub const STOP_TIME_TO: usize = 18;

pub const QI_DEPARTURE_FROM: usize = 18;

pub const QI_DEPARTURE_TO: usize = 22;

pub const QI_ACTIVITY: usize = 22;

pub const QO_WIDTH: usize = 18;

pub const QI_WIDTH: usize = 23;

pub const QT_WIDTH: usize = 18;

// Columns of a stop name (`QL`).
pub const QL_STATUS: usize = 2;

pub const QL_CODE_FROM: usize = 3;

pub const QL_CODE_TO: usize = 15;

pub const QL_NAME_FROM: usize = 15;

pub const QL_NAME_TO: usize = 63;

pub const QL_WIDTH: usize = 63;

/// The characters of `line` in the columns `from..to`.
pub open spec fn field(line: Seq<char>, from: usize, to: usize) -> Seq<char> {
    line.subrange(from as int, to as int)
}

/// Why a line of a decoded record type could not be decoded.
#[derive(Clone, Copy, Debug, PartialEq, Eq, Structural)]
pub enum DecodeError {
    /// The line ends before the last column that its record type needs.
    TooShort,
    /// The status column holds none of `N`, `D`, `R`.
    UnknownStatus,
    /// A date field is not made of eight digits.
    InvalidDate,
    /// The first date of operation lies after the last one.
    DateRangeReversed,
    /// A time field is not made of four digits.
    InvalidTime,
    /// The activity column holds none of `B`, `P`, `S`, `N`.
    UnknownActivityFlag,
}

/// Whether a record is new, deletes an earlier one or revises it.
#[derive(Clone, Copy, Debug, PartialEq, Eq, Structural)]
pub enum Status {
    New,
    Delete,
    Revise,
}

/// The status that a letter codes: `N` new, `D` delete, `R` revise.
pub open spec fn status_coded(c: char) -> Option<Status> {
    if c == 'N' {
        Some(Status::New)
    } else if c == 'D' {
        Some(Status::Delete)
    } else if c == 'R' {
        Some(Status::Revise)
    } else {
        None
    }
}

impl Status {
    /// A journey operates unless its record deletes it.
    pub open spec fn operating(self) -> bool {
        self != Status::Delete
    }

    /// The status that the letter `c` codes.
    pub fn from_char(c: char) -> (status: Option<Status>)
        ensures
            status == status_coded(c),
    {
        if c == 'N' {
            Some(Status::New)
        } else if c == 'D' {
            Some(Status::Delete)
        } else if c == 'R' {
            Some(Status::Revise)
        } else {
            None
        }
    }

    /// The status that the one-letter text `s` codes.
    pub fn from_str(s: &str) -> (status: Result<Status, ()>)
        ensures
            status == (if s@.len() == 1 && status_coded(s@[0]) is Some {
                Ok::<Status, ()>(status_coded(s@[0])->0)
            } else {
                Err(())
            }),
    {
        if s.unicode_len() != 1 {
            return Err(());
        }
        match Status::from_char(s.get_char(0)) {
            Some(status) => Ok(status),
            None => Err(()),
        }
    }

    /// Whether a journey with this status operates.
    pub fn is_operating(&self) -> (b: bool)
        ensures
            b == self.operating(),
    {
        match self {
            Status::New | Status::Revise => true,
            Status::Delete => false,
        }
    }
}

/// A day of the week.
#[derive(Clone, Copy, Debug, PartialEq, Eq, Structural)]
pub enum Day {
    Monday,
    Tuesday,
    Wednesday,
    Thursday,
    Friday,
    Saturday,
    Sunday,
}

/// Position of a day in the week, Monday being 0.
pub open spec fn day_number(day: Day) -> int {
    match day {
        Day::Monday => 0,
        Day::Tuesday => 1,
        Day::Wednesday => 2,
        Day::Thursday => 3,
        Day::Friday => 4,
        Day::Saturday => 5,
        Day::Sunday => 6,
    }
}

/// The day whose English name, capitalised, is `s`.
pub open spec fn day_named(s: Seq<char>) -> Option<Day> {
    if s == "Monday"@ {
        Some(Day::Monday)
    } else if s == "Tuesday"@ {
        Some(Day::Tuesday)
    } else if s == "Wednesday"@ {
        Some(Day::Wednesday)
    } else if s == "Thursday"@ {
        Some(Day::Thursday)
    } else if s == "Friday"@ {
        Some(Day::Friday)
    } else if s == "Saturday"@ {
        Some(Day::Saturday)
    } else if s == "Sunday"@ {
        Some(Day::Sunday)
    } else {
        None
    }
}

impl Day {
    /// The day whose English name, capitalised, is `s`.
    pub fn from_str(s: &str) -> (day: Result<Day, ()>)
        ensures
            day == (match day_named(s@) {
                Some(d) => Ok::<Day, ()>(d),
                None => Err(()),
            }),
    {
        let chars = chars_of(s);
        let line = chars.as_slice();
        let n = line.len();
        assert(line@.subrange(0, n as int) == s@);
        if field_is(line, 0, n, "Monday") {
            Ok(Day::Monday)
        } else if field_is(line, 0, n, "Tuesday") {
            Ok(Day::Tuesday)
        } else if field_is(line, 0, n, "Wednesday") {
            Ok(Day::Wednesday)
        } else if field_is(line, 0, n, "Thursday") {
            Ok(Day::Thursday)
        } else if field_is(line, 0, n, "Friday") {
            Ok(Day::Friday)
        } else if field_is(line, 0, n, "Saturday") {
            Ok(Day::Saturday)
        } else if field_is(line, 0, n, "Sunday") {
            Ok(Day::Sunday)
        } else {
            Err(())
        }
    }

    /// Position of the day in the week, Monday being 0.
    pub fn number(&self) -> (n: usize)
        ensures
            n == day_number(*self),
            n < 7,
    {
        match self {
            Day::Monday => 0,
            Day::Tuesday => 1,
            Day::Wednesday => 2,
            Day::Thursday => 3,
            Day::Friday => 4,
            Day::Saturday => 5,
            Day::Sunday => 6,
        }
    }
}

/// The days of the week on which a journey runs, Monday first.
#[derive(Clone, Copy, Debug, PartialEq, Eq)]
pub struct OperatingDays(pub [bool; 7]);

/// The days that a field of seven columns marks with `1`, Monday first.
/// Columns that the field lacks mark nothing.
pub open spec fn days_written(field: Seq<char>) -> Seq<bool> {
    Seq::new(7, |i: int| i < field.len() && field[i] == '1')
}

impl View for OperatingDays {
    type V = Seq<bool>;

    open spec fn view(&self) -> Seq<bool> {
        self.0@
    }
}

impl OperatingDays {
    /// The days marked in the columns `from..to` of `line`.
    pub fn from_field(line: &[char], from: usize, to: usize) -> (days: OperatingDays)
        requires
            from <= to <= line@.len(),
        ensures
            days@ == days_written(line@.subrange(from as int, to as int)),
    {
        let mut marks: [bool; 7] = [false; 7];
        let mut i: usize = 0;
        while i < 7
            invariant
                from <= to <= line@.len(),
                i <= 7,
                forall|j: int|
                    0 <= j < i ==> marks@[j] == (j < to - from && line@[from + j] == '1'),
            decreases 7 - i,
        {
            if i < to - from && line[from + i] == '1' {
                marks[i] = true;
            } else {
                marks[i] = false;
            }
            i += 1;
        }
        assert(marks@ =~= days_written(line@.subrange(from as int, to as int)));
        OperatingDays(marks)
    }

    /// The days that `s` marks with `1`, Monday first.
    pub fn from_cif_str(s: &str) -> (days: OperatingDays)
        ensures
            days@ == days_written(s@),
    {
        let chars = chars_of(s);
        assert(s@.subrange(0, s@.len() as int) == s@);
        OperatingDays::from_field(chars.as_slice(), 0, chars.len())
    }

    /// Whether the journey runs on `day`.
    pub fn contains(&self, day: &Day) -> (b: bool)
        ensures
            b == self@[day_number(*day)],
    {
        self.0[day.number()]
    }
}

/// A time of day, in seconds after midnight.
#[derive(Clone, Copy, Debug, PartialEq, Eq, Structural)]
pub struct SecondsPastMidnight(pub u32);

/// The time that a field of four digits `HHMM` writes: `HH` hours and `MM`
/// minutes after midnight. Neither part is held to a range.
pub open spec fn time_written(field: Seq<char>) -> Option<SecondsPastMidnight> {
    if field.len() == 4 && all_digits(field) {
        Some(
            SecondsPastMidnight(
                (decimal_value(field.subrange(0, 2)) * 3600 + decimal_value(field.subrange(2, 4))
                    * 60) as u32,
            ),
        )
    } else {
        None
    }
}

/// The seconds after midnight that the digits `HHMM` stand for.
pub open spec fn seconds_of(hours: int, minutes: int) -> int {
    hours * 3600 + minutes * 60
}

/// Reading a time of day from its written form.
pub trait TimeConversion: Sized {
    /// The time that `s` writes, if it writes one.
    spec fn written(s: Seq<char>) -> Option<Self>;

    fn from_24hr_str(s: &str) -> (time: Option<Self>)
        ensures
            time == Self::written(s@),
    ;
}

impl SecondsPastMidnight {
    /// The time in the columns `from..to` of `line`.
    pub fn from_field(line: &[char], from: usize, to: usize) -> (time: Option<SecondsPastMidnight>)
        requires
            from <= to <= line@.len(),
        ensures
            time == time_written(line@.subrange(from as int, to as int)),
            time matches Some(t) ==> t.0 == seconds_of(
                decimal_value(line@.subrange(from as int, from + 2)),
                decimal_value(line@.subrange(from + 2, from + 4)),
            ) && t.0 <= 362_340,
    {
        if to - from != 4 {
            return None;
        }
        let ghost f = line@.subrange(from as int, to as int);
        assert(f.subrange(0, 2) == line@.subrange(from as int, from + 2));
        assert(f.subrange(2, 4) == line@.subrange(from + 2, from + 4));
        match parse_decimal(line, from, from + 2) {
            None => {
                proof {
                    let j = choose|j: int|
                        0 <= j < 2 && !is_digit(
                            #[trigger] line@.subrange(from as int, from + 2)[j],
                        );
                    assert(f[j] == line@.subrange(from as int, from + 2)[j]);
                }
                None
            },
            Some(hours) => match parse_decimal(line, from + 2, from + 4) {
                None => {
                    proof {
                        let j = choose|j: int|
                            0 <= j < 2 && !is_digit(
                                #[trigger] line@.subrange(from + 2, from + 4)[j],
                            );
                        assert(f[j + 2] == line@.subrange(from + 2, from + 4)[j]);
                    }
                    None
                },
                Some(minutes) => {
                    proof {
                        assert forall|j: int| 0 <= j < 4 implies is_digit(
                            #[trigger] f[j],
                        ) by {
                            if j < 2 {
                                assert(f[j] == line@.subrange(from as int, from + 2)[j]);
                            } else {
                                assert(f[j] == line@.subrange(from + 2, from + 4)[j - 2]);
                            }
                        }
                        lemma_decimal_value_bound(line@.subrange(from as int, from + 2));
                        lemma_decimal_value_bound(line@.subrange(from + 2, from + 4));
                        lemma_pow10_values();
                    }
                    Some(SecondsPastMidnight(hours * 3600 + minutes * 60))
                },
            },
        }
    }
}

impl TimeConversion for SecondsPastMidnight {
    open spec fn written(s: Seq<char>) -> Option<SecondsPastMidnight> {
        time_written(s)
    }

    fn from_24hr_str(s: &str) -> (time: Option<SecondsPastMidnight>) {
        let chars = chars_of(s);
        assert(s@.subrange(0, s@.len() as int) == s@);
        SecondsPastMidnight::from_field(chars.as_slice(), 0, chars.len())
    }
}

/// A calendar date as its file form `YYYYMMDD` gives it. Dates are ordered by
/// year, then month, then day; no calendar is consulted.
#[derive(Clone, Copy, Debug, PartialEq, Eq, Structural)]
pub struct Date {
    pub year: u16,
    pub month: u8,
    pub day: u8,
}

/// Whether `a` is `b` or an earlier date.
pub open spec fn date_le(a: Date, b: Date) -> bool {
    a.year < b.year || (a.year == b.year && (a.month < b.month || (a.month == b.month && a.day
        <= b.day)))
}

/// The date that a field of eight digits `YYYYMMDD` writes.
pub open spec fn date_written(field: Seq<char>) -> Option<Date> {
    if field.len() == 8 && all_digits(field) {
        Some(
            Date {
                year: decimal_value(field.subrange(0, 4)) as u16,
                month: decimal_value(field.subrange(4, 6)) as u8,
                day: decimal_value(field.subrange(6, 8)) as u8,
            },
        )
    } else {
        None
    }
}

impl Date {
    /// Whether the date is `other` or an earlier date.
    pub fn not_after(&self, other: &Date) -> (b: bool)
        ensures
            b == date_le(*self, *other),
    {
        self.year < other.year || (self.year == other.year && (self.month < other.month || (
        self.month == other.month && self.day <= other.day)))
    }

    /// Whether the date lies in the range from `first` to `last`, both ends
    /// included.
    pub fn within(&self, first: &Date, last: &Date) -> (b: bool)
        ensures
            b == (date_le(*first, *self) && date_le(*self, *last)),
    {
        first.not_after(self) && self.not_after(last)
    }

    /// The date in the columns `from..to` of `line`.
    pub fn from_field(line: &[char], from: usize, to: usize) -> (date: Option<Date>)
        requires
            from <= to <= line@.len(),
        ensures
            date == date_written(line@.subrange(from as int, to as int)),
            date matches Some(d) ==> d.year == decimal_value(
                line@.subrange(from as int, from + 4),
            ) && d.month == decimal_value(line@.subrange(from + 4, from + 6)) && d.day
                == decimal_value(line@.subrange(from + 6, from + 8)),
    {
        if to - from != 8 {
            return None;
        }
        let ghost f = line@.subrange(from as int, to as int);
        let ghost fy = line@.subrange(from as int, from + 4);
        let ghost fm = line@.subrange(from + 4, from + 6);
        let ghost fd = line@.subrange(from + 6, from + 8);
        assert(f.subrange(0, 4) == fy);
        assert(f.subrange(4, 6) == fm);
        assert(f.subrange(6, 8) == fd);
        let year = parse_decimal(line, from, from + 4);
        let month = parse_decimal(line, from + 4, from + 6);
        let day = parse_decimal(line, from + 6, from + 8);
        proof {
            if all_digits(f) {
                assert forall|j: int| 0 <= j < 4 implies is_digit(#[trigger] fy[j]) by {
                    assert(fy[j] == f[j]);
                }
                assert forall|j: int| 0 <= j < 2 implies is_digit(#[trigger] fm[j]) by {
                    assert(fm[j] == f[j + 4]);
                }
                assert forall|j: int| 0 <= j < 2 implies is_digit(#[trigger] fd[j]) by {
                    assert(fd[j] == f[j + 6]);
                }
            }
            if all_digits(fy) && all_digits(fm) && all_digits(fd) {
                assert forall|j: int| 0 <= j < 8 implies is_digit(#[trigger] f[j]) by {
                    if j < 4 {
                        assert(f[j] == fy[j]);
                    } else if j < 6 {
                        assert(f[j] == fm[j - 4]);
                    } else {
                        assert(f[j] == fd[j - 6]);
                    }
                }
                lemma_decimal_value_bound(fy);
                lemma_decimal_value_bound(fm);
                lemma_decimal_value_bound(fd);
                lemma_pow10_values();
            }
        }
        match (year, month, day) {
            (Some(y), Some(m), Some(d)) => Some(Date { year: y as u16, month: m as u8, day: d as u8 }),
            _ => None,
        }
    }
}

/// Whether a journey carries passengers.
#[derive(Clone, Copy, Debug, PartialEq, Eq, Structural)]
pub enum Category {
    Passenger,
    Other,
}

/// The category of a journey whose vehicle-type field is `field`: a passenger
/// service where the field names a public transport mode, another kind of
/// service where it does not.
pub open spec fn category_written(field: Seq<char>) -> Category {
    if mode_named(field) is Some {
        Category::Passenger
    } else {
        Category::Other
    }
}

impl Category {
    /// The category of a journey whose vehicle type stands in the columns
    /// `from..to` of `line`.
    pub fn from_field(line: &[char], from: usize, to: usize) -> (category: Category)
        requires
            from <= to <= line@.len(),
        ensures
            category == category_written(line@.subrange(from as int, to as int)),
    {
        match PublicTransportMode::from_field(line, from, to) {
            Some(_) => Category::Passenger,
            None => Category::Other,
        }
    }
}

/// Whether passengers may board, alight, both or neither at a stop.
#[derive(Clone, Copy, Debug, PartialEq, Eq, Structural)]
pub enum ActivityFlag {
    Both,
    PickUpOnly,
    SetDownOnly,
    Neither,
}

/// The activity flag that a letter codes: `B` both, `P` pick up only, `S` set
/// down only, `N` neither.
pub open spec fn activity_coded(c: char) -> Option<ActivityFlag> {
    if c == 'B' {
        Some(ActivityFlag::Both)
    } else if c == 'P' {
        Some(ActivityFlag::PickUpOnly)
    } else if c == 'S' {
        Some(ActivityFlag::SetDownOnly)
    } else if c == 'N' {
        Some(ActivityFlag::Neither)
    } else {
        None
    }
}

impl ActivityFlag {
    /// Whether a passenger can depart from a stop with this flag.
    pub open spec fn boards(self) -> bool {
        self == ActivityFlag::PickUpOnly || self == ActivityFlag::Both
    }

    /// The flag that the letter `c` codes.
    pub fn from_char(c: char) -> (flag: Option<ActivityFlag>)
        ensures
            flag == activity_coded(c),
    {
        if c == 'B' {
            Some(ActivityFlag::Both)
        } else if c == 'P' {
            Some(ActivityFlag::PickUpOnly)
        } else if c == 'S' {
            Some(ActivityFlag::SetDownOnly)
        } else if c == 'N' {
            Some(ActivityFlag::Neither)
        } else {
            None
        }
    }

    /// The flag that the one-letter text `s` codes.
    pub fn from_str(s: &str) -> (flag: Result<ActivityFlag, ()>)
        ensures
            flag == (if s@.len() == 1 && activity_coded(s@[0]) is Some {
                Ok::<ActivityFlag, ()>(activity_coded(s@[0])->0)
            } else {
                Err(())
            }),
    {
        if s.unicode_len() != 1 {
            return Err(());
        }
        match ActivityFlag::from_char(s.get_char(0)) {
            Some(flag) => Ok(flag),
            None => Err(()),
        }
    }

    /// Whether a passenger can depart from a stop with this flag.
    pub fn can_board(&self) -> (b: bool)
        ensures
            b == self.boards(),
    {
        match self {
            ActivityFlag::PickUpOnly | ActivityFlag::Both => true,
            _ => false,
        }
    }
}

/// The record types that a line can announce.
#[derive(Clone, Copy, Debug, PartialEq, Eq, Structural)]
pub enum RecordIdentifier {
    /// Journey header.
    QS,
    /// Origin of a journey.
    QO,
    /// Intermediate stop of a journey.
    QI,
    /// Destination of a journey.
    QT,
    /// Name of a stop.
    QL,
    /// Every record type that is not decoded.
    Other,
}

/// The record type that the two letters `s` announce.
pub open spec fn identifier_named(s: Seq<char>) -> RecordIdentifier {
    if s == "QS"@ {
        RecordIdentifier::QS
    } else if s == "QO"@ {
        RecordIdentifier::QO
    } else if s == "QI"@ {
        RecordIdentifier::QI
    } else if s == "QT"@ {
        RecordIdentifier::QT
    } else if s == "QL"@ {
        RecordIdentifier::QL
    } else {
        RecordIdentifier::Other
    }
}

/// The record type of a line: what its first two columns announce. A line
/// that lacks them is of no decoded type.
pub open spec fn record_kind(line: Seq<char>) -> RecordIdentifier {
    if line.len() < 2 {
        RecordIdentifier::Other
    } else {
        identifier_named(field(line, KIND_FROM, KIND_TO))
    }
}

impl RecordIdentifier {
    /// The record type that the columns `from..to` of `line` announce.
    pub fn from_field(line: &[char], from: usize, to: usize) -> (kind: RecordIdentifier)
        requires
            from <= to <= line@.len(),
        ensures
            kind == identifier_named(line@.subrange(from as int, to as int)),
    {
        if field_is(line, from, to, "QS") {
            RecordIdentifier::QS
        } else if field_is(line, from, to, "QO") {
            RecordIdentifier::QO
        } else if field_is(line, from, to, "QI") {
            RecordIdentifier::QI
        } else if field_is(line, from, to, "QT") {
            RecordIdentifier::QT
        } else if field_is(line, from, to, "QL") {
            RecordIdentifier::QL
        } else {
            RecordIdentifier::Other
        }
    }

    /// The record type that `s` announces. Every text is accepted: one that
    /// announces no decoded type gives `Other`.
    pub fn from_str(s: &str) -> (kind: Result<RecordIdentifier, ()>)
        ensures
            kind == Ok::<RecordIdentifier, ()>(identifier_named(s@)),
    {
        let chars = chars_of(s);
        assert(s@.subrange(0, s@.len() as int) == s@);
        Ok(RecordIdentifier::from_field(chars.as_slice(), 0, chars.len()))
    }
}

/// The header of a journey: one per journey, followed by the journey's stops.
#[derive(Clone, Debug, PartialEq)]
pub struct JourneyHeader {
    pub status: Status,
    pub operator: String,
    pub unique_journey_identifier: String,
    /// First day on which the journey runs.
    pub date_runs_from: Date,
    /// Last day on which the journey runs.
    pub date_runs_to: Date,
    pub operating_days: OperatingDays,
    pub route_number: String,
    pub category: Category,
}

/// A journey header, as mathematical values.
pub struct JourneyHeaderView {
    pub status: Status,
    pub operator: Seq<char>,
    pub unique_journey_identifier: Seq<char>,
    pub date_runs_from: Date,
    pub date_runs_to: Date,
    pub operating_days: Seq<bool>,
    pub route_number: Seq<char>,
    pub category: Category,
}

impl View for JourneyHeader {
    type V = JourneyHeaderView;

    open spec fn view(&self) -> JourneyHeaderView {
        JourneyHeaderView {
            status: self.status,
            operator: self.operator@,
            unique_journey_identifier: self.unique_journey_identifier@,
            date_runs_from: self.date_runs_from,
            date_runs_to: self.date_runs_to,
            operating_days: self.operating_days@,
            route_number: self.route_number@,
            category: self.category,
        }
    }
}

impl JourneyHeaderView {
    /// The dates of operation are in order.
    pub open spec fn well_formed(self) -> bool {
        date_le(self.date_runs_from, self.date_runs_to) && self.operating_days.len() == 7
    }
}

/// What a `QS` line holds. The line is read in this order and the first
/// fault decides the error: its length, its status, its two dates, the order
/// of the dates.
pub open spec fn header_written(line: Seq<char>) -> Result<JourneyHeaderView, DecodeError> {
    if line.len() < QS_WIDTH {
        Err(DecodeError::TooShort)
    } else if status_coded(line[QS_STATUS as int]) is None {
        Err(DecodeError::UnknownStatus)
    } else if date_written(field(line, QS_FIRST_DATE_FROM, QS_FIRST_DATE_TO)) is None
        || date_written(field(line, QS_LAST_DATE_FROM, QS_LAST_DATE_TO)) is None {
        Err(DecodeError::InvalidDate)
    } else if !date_le(
        date_written(field(line, QS_FIRST_DATE_FROM, QS_FIRST_DATE_TO))->0,
        date_written(field(line, QS_LAST_DATE_FROM, QS_LAST_DATE_TO))->0,
    ) {
        Err(DecodeError::DateRangeReversed)
    } else {
        Ok(
            JourneyHeaderView {
                status: status_coded(line[QS_STATUS as int])->0,
                operator: trim(field(line, QS_OPERATOR_FROM, QS_OPERATOR_TO)),
                unique_journey_identifier: trim(field(line, QS_JOURNEY_FROM, QS_JOURNEY_TO)),
                date_runs_from: date_written(field(line, QS_FIRST_DATE_FROM, QS_FIRST_DATE_TO))->0,
                date_runs_to: date_written(field(line, QS_LAST_DATE_FROM, QS_LAST_DATE_TO))->0,
                operating_days: days_written(field(line, QS_DAYS_FROM, QS_DAYS_TO)),
                route_number: trim(field(line, QS_ROUTE_FROM, QS_ROUTE_TO)),
                category: category_written(field(line, QS_VEHICLE_FROM, QS_VEHICLE_TO)),
            },
        )
    }
}

impl JourneyHeader {
    /// Decodes a `QS` line.
    pub fn from_qs_str(qs_string: &[char]) -> (header: Result<JourneyHeader, DecodeError>)
        ensures
            match header {
                Ok(h) => header_written(qs_string@) == Ok::<JourneyHeaderView, DecodeError>(h@)
                    && h@.well_formed(),
                Err(e) => header_written(qs_string@) == Err::<JourneyHeaderView, DecodeError>(e),
            },
    {
        if qs_string.len() < QS_WIDTH {
            return Err(DecodeError::TooShort);
        }
        let status = match Status::from_char(qs_string[QS_STATUS]) {
            Some(status) => status,
            None => {
                return Err(DecodeError::UnknownStatus);
            },
        };
        let first = Date::from_field(qs_string, QS_FIRST_DATE_FROM, QS_FIRST_DATE_TO);
        let last = Date::from_field(qs_string, QS_LAST_DATE_FROM, QS_LAST_DATE_TO);
        let (date_runs_from, date_runs_to) = match (first, last) {
            (Some(first), Some(last)) => (first, last),
            _ => {
                return Err(DecodeError::InvalidDate);
            },
        };
        if !date_runs_from.not_after(&date_runs_to) {
            return Err(DecodeError::DateRangeReversed);
        }
        Ok(
            JourneyHeader {
                status,
                operator: trimmed_field(qs_string, QS_OPERATOR_FROM, QS_OPERATOR_TO),
                unique_journey_identifier: trimmed_field(
                    qs_string,
                    QS_JOURNEY_FROM,
                    QS_JOURNEY_TO,
                ),
                date_runs_from,
                date_runs_to,
                operating_days: OperatingDays::from_field(qs_string, QS_DAYS_FROM, QS_DAYS_TO),
                route_number: trimmed_field(qs_string, QS_ROUTE_FROM, QS_ROUTE_TO),
                category: Category::from_field(qs_string, QS_VEHICLE_FROM, QS_VEHICLE_TO),
            },
        )
    }
}

/// One stop of a journey.
#[derive(Clone, Debug, PartialEq)]
pub struct JourneyRecordStop {
    pub atco_code: Atco,
    pub activity_flag: ActivityFlag,
    pub arrival_time: Option<SecondsPastMidnight>,
    pub departure_time: Option<SecondsPastMidnight>,
    /// Whether the journey starts at this stop.
    pub is_first_stop: bool,
}

/// A stop of a journey, as mathematical values.
pub struct JourneyRecordStopView {
    pub atco_code: Seq<char>,
    pub activity_flag: ActivityFlag,
    pub arrival_time: Option<SecondsPastMidnight>,
    pub departure_time: Option<SecondsPastMidnight>,
    pub is_first_stop: bool,
}

impl View for JourneyRecordStop {
    type V = JourneyRecordStopView;

    open spec fn view(&self) -> JourneyRecordStopView {
        JourneyRecordStopView {
            atco_code: self.atco_code@,
            activity_flag: self.activity_flag,
            arrival_time: self.arrival_time,
            departure_time: self.departure_time,
            is_first_stop: self.is_first_stop,
        }
    }
}

/// The view of a decoded stop, of a stop left out, or of a failure.
pub open spec fn stop_outcome(decoded: Result<Option<JourneyRecordStop>, DecodeError>) -> Result<
    Option<JourneyRecordStopView>,
    DecodeError,
> {
    match decoded {
        Ok(Some(stop)) => Ok(Some(stop@)),
        Ok(None) => Ok(None),
        Err(e) => Err(e),
    }
}

/// What a `QO` line holds: the stop at which a journey starts, where
/// passengers board at the time of departure. A stop whose identifier begins
/// with `999` is left out.
pub open spec fn origin_written(line: Seq<char>, replacements: Map<Seq<char>, Seq<char>>) -> Result<
    Option<JourneyRecordStopView>,
    DecodeError,
> {
    if line.len() < QO_WIDTH {
        Err(DecodeError::TooShort)
    } else if mapped_code(field(line, STOP_CODE_FROM, STOP_CODE_TO), replacements) is None {
        Ok(None)
    } else if time_written(field(line, STOP_TIME_FROM, STOP_TIME_TO)) is None {
        Err(DecodeError::InvalidTime)
    } else {
        Ok(
            Some(
                JourneyRecordStopView {
                    atco_code: mapped_code(
                        field(line, STOP_CODE_FROM, STOP_CODE_TO),
                        replacements,
                    )->0,
                    activity_flag: ActivityFlag::PickUpOnly,
                    arrival_time: None,
                    departure_time: time_written(field(line, STOP_TIME_FROM, STOP_TIME_TO)),
                    is_first_stop: true,
                },
            ),
        )
    }
}

/// What a `QI` line holds: a stop between origin and destination, with its
/// times of arrival and departure and its activity flag. The first fault
/// decides the error: length, arrival, departure, flag.
pub open spec fn intermediate_written(
    line: Seq<char>,
    replacements: Map<Seq<char>, Seq<char>>,
) -> Result<Option<JourneyRecordStopView>, DecodeError> {
    if line.len() < QI_WIDTH {
        Err(DecodeError::TooShort)
    } else if mapped_code(field(line, STOP_CODE_FROM, STOP_CODE_TO), replacements) is None {
        Ok(None)
    } else if time_written(field(line, STOP_TIME_FROM, STOP_TIME_TO)) is None || time_written(
        field(line, QI_DEPARTURE_FROM, QI_DEPARTURE_TO),
    ) is None {
        Err(DecodeError::InvalidTime)
    } else if activity_coded(line[QI_ACTIVITY as int]) is None {
        Err(DecodeError::UnknownActivityFlag)
    } else {
        Ok(
            Some(
                JourneyRecordStopView {
                    atco_code: mapped_code(
                        field(line, STOP_CODE_FROM, STOP_CODE_TO),
                        replacements,
                    )->0,
                    activity_flag: activity_coded(line[QI_ACTIVITY as int])->0,
                    arrival_time: time_written(field(line, STOP_TIME_FROM, STOP_TIME_TO)),
                    departure_time: time_written(field(line, QI_DEPARTURE_FROM, QI_DEPARTURE_TO)),
                    is_first_stop: false,
                },
            ),
        )
    }
}

/// What a `QT` line holds: the stop at which a journey ends, where passengers
/// alight at the time of arrival.
pub open spec fn destination_written(
    line: Seq<char>,
    replacements: Map<Seq<char>, Seq<char>>,
) -> Result<Option<JourneyRecordStopView>, DecodeError> {
    if line.len() < QT_WIDTH {
        Err(DecodeError::TooShort)
    } else if mapped_code(field(line, STOP_CODE_FROM, STOP_CODE_TO), replacements) is None {
        Ok(None)
    } else if time_written(field(line, STOP_TIME_FROM, STOP_TIME_TO)) is None {
        Err(DecodeError::InvalidTime)
    } else {
        Ok(
            Some(
                JourneyRecordStopView {
                    atco_code: mapped_code(
                        field(line, STOP_CODE_FROM, STOP_CODE_TO),
                        replacements,
                    )->0,
                    activity_flag: ActivityFlag::SetDownOnly,
                    arrival_time: time_written(field(line, STOP_TIME_FROM, STOP_TIME_TO)),
                    departure_time: None,
                    is_first_stop: false,
                },
            ),
        )
    }
}

impl JourneyRecordStop {
    /// Decodes a `QO` line.
    pub fn from_qo_str(s: &[char], atco_mapping: &AtcoMap<Atco>) -> (stop: Result<
        Option<JourneyRecordStop>,
        DecodeError,
    >)
        requires
            atco_mapping.wf(),
        ensures
            stop_outcome(stop) == origin_written(s@, atco_mapping.texts()),
    {
        if s.len() < QO_WIDTH {
            return Err(DecodeError::TooShort);
        }
        let atco_code = match Atco::from_mapped_field(s, STOP_CODE_FROM, STOP_CODE_TO, atco_mapping) {
            Some(code) => code,
            None => {
                return Ok(None);
            },
        };
        let departure = match SecondsPastMidnight::from_field(s, STOP_TIME_FROM, STOP_TIME_TO) {
            Some(time) => time,
            None => {
                return Err(DecodeError::InvalidTime);
            },
        };
        Ok(
            Some(
                JourneyRecordStop {
                    atco_code,
                    activity_flag: ActivityFlag::PickUpOnly,
                    arrival_time: None,
                    departure_time: Some(departure),
                    is_first_stop: true,
                },
            ),
        )
    }

    /// Decodes a `QI` line.
    pub fn from_qi_str(s: &[char], atco_mapping: &AtcoMap<Atco>) -> (stop: Result<
        Option<JourneyRecordStop>,
        DecodeError,
    >)
        requires
            atco_mapping.wf(),
        ensures
            stop_outcome(stop) == intermediate_written(s@, atco_mapping.texts()),
    {
        if s.len() < QI_WIDTH {
            return Err(DecodeError::TooShort);
        }
        let atco_code = match Atco::from_mapped_field(s, STOP_CODE_FROM, STOP_CODE_TO, atco_mapping) {
            Some(code) => code,
            None => {
                return Ok(None);
            },
        };
        let arrival = SecondsPastMidnight::from_field(s, STOP_TIME_FROM, STOP_TIME_TO);
        let departure = SecondsPastMidnight::from_field(s, QI_DEPARTURE_FROM, QI_DEPARTURE_TO);
        let (arrival, departure) = match (arrival, departure) {
            (Some(arrival), Some(departure)) => (arrival, departure),
            _ => {
                return Err(DecodeError::InvalidTime);
            },
        };
        let activity_flag = match ActivityFlag::from_char(s[QI_ACTIVITY]) {
            Some(flag) => flag,
            None => {
                return Err(DecodeError::UnknownActivityFlag);
            },
        };
        Ok(
            Some(
                JourneyRecordStop {
                    atco_code,
                    activity_flag,
                    arrival_time: Some(arrival),
                    departure_time: Some(departure),
                    is_first_stop: false,
                },
            ),
        )
    }

    /// Decodes a `QT` line.
    pub fn from_qt_str(s: &[char], atco_mapping: &AtcoMap<Atco>) -> (stop: Result<
        Option<JourneyRecordStop>,
        DecodeError,
    >)
        requires
            atco_mapping.wf(),
        ensures
            stop_outcome(stop) == destination_written(s@, atco_mapping.texts()),
    {
        if s.len() < QT_WIDTH {
            return Err(DecodeError::TooShort);
        }
        let atco_code = match Atco::from_mapped_field(s, STOP_CODE_FROM, STOP_CODE_TO, atco_mapping) {
            Some(code) => code,
            None => {
                return Ok(None);
            },
        };
        let arrival = match SecondsPastMidnight::from_field(s, STOP_TIME_FROM, STOP_TIME_TO) {
            Some(time) => time,
            None => {
                return Err(DecodeError::InvalidTime);
            },
        };
        Ok(
            Some(
                JourneyRecordStop {
                    atco_code,
                    activity_flag: ActivityFlag::SetDownOnly,
                    arrival_time: Some(arrival),
                    departure_time: None,
                    is_first_stop: false,
                },
            ),
        )
    }
}

/// The definition of a stop: its identifier and its name, and, where the
/// timetable's source links stops to stations through a numeric reference,
/// that reference and the station's short code.
#[derive(Clone, Debug, PartialEq)]
pub struct StopName {
    pub status: Status,
    pub atco_code: Atco,
    pub name: String,
    /// The numeric reference that links the stop to a station.
    pub reference: Option<u64>,
    /// The short code of the station that the stop belongs to.
    pub station_code: Option<Atco>,
}

/// The definition of a stop, as mathematical values.
pub struct StopNameView {
    pub status: Status,
    pub atco_code: Seq<char>,
    pub name: Seq<char>,
    pub reference: Option<u64>,
    pub station_code: Option<Seq<char>>,
}

impl View for StopName {
    type V = StopNameView;

    open spec fn view(&self) -> StopNameView {
        StopNameView {
            status: self.status,
            atco_code: self.atco_code@,
            name: self.name@,
            reference: self.reference,
            station_code: match self.station_code {
                Some(code) => Some(code@),
                None => None,
            },
        }
    }
}

/// The view of a decoded stop name, of a name left out, or of a failure.
pub open spec fn name_outcome(decoded: Result<Option<StopName>, DecodeError>) -> Result<
    Option<StopNameView>,
    DecodeError,
> {
    match decoded {
        Ok(Some(name)) => Ok(Some(name@)),
        Ok(None) => Ok(None),
        Err(e) => Err(e),
    }
}

/// What a `QL` line holds: the name of a stop, without commas. The stop is
/// left out where the replacement table has an entry for its identifier, since
/// the replacement is used in its place, and where the identifier begins with
/// `999`. Such a line carries neither reference nor station code.
pub open spec fn name_written(line: Seq<char>, replacements: Map<Seq<char>, Seq<char>>) -> Result<
    Option<StopNameView>,
    DecodeError,
> {
    let code = trim(field(line, QL_CODE_FROM, QL_CODE_TO));
    if line.len() < QL_WIDTH {
        Err(DecodeError::TooShort)
    } else if replacements.contains_key(code) || starts_with_999(code) {
        Ok(None)
    } else if status_coded(line[QL_STATUS as int]) is None {
        Err(DecodeError::UnknownStatus)
    } else {
        Ok(
            Some(
                StopNameView {
                    status: status_coded(line[QL_STATUS as int])->0,
                    atco_code: code,
                    name: without_commas(trim(field(line, QL_NAME_FROM, QL_NAME_TO))),
                    reference: None,
                    station_code: None,
                },
            ),
        )
    }
}

impl StopName {
    /// Decodes a `QL` line.
    pub fn from_ql_str(ql_string: &[char], atco_mapping: &AtcoMap<Atco>) -> (name: Result<
        Option<StopName>,
        DecodeError,
    >)
        requires
            atco_mapping.wf(),
        ensures
            name_outcome(name) == name_written(ql_string@, atco_mapping.texts()),
    {
        if ql_string.len() < QL_WIDTH {
            return Err(DecodeError::TooShort);
        }
        let atco_code = Atco::from_field(ql_string, QL_CODE_FROM, QL_CODE_TO);
        if atco_mapping.contains_key(&atco_code) || atco_code.starts_with_999() {
            return Ok(None);
        }
        let status = match Status::from_char(ql_string[QL_STATUS]) {
            Some(status) => status,
            None => {
                return Err(DecodeError::UnknownStatus);
            },
        };
        Ok(
            Some(
                StopName {
                    status,
                    atco_code,
                    name: trimmed_field_without_commas(ql_string, QL_NAME_FROM, QL_NAME_TO),
                    reference: None,
                    station_code: None,
                },
            ),
        )
    }
}

/// A decoded line.
#[derive(Clone, Debug, PartialEq)]
pub enum Record {
    JourneyHeader(JourneyHeader),
    JourneyRecordStop(JourneyRecordStop),
    StopName(StopName),
}

/// A decoded line, as mathematical values.
pub enum RecordView {
    JourneyHeader(JourneyHeaderView),
    JourneyRecordStop(JourneyRecordStopView),
    StopName(StopNameView),
}

impl View for Record {
    type V = RecordView;

    open spec fn view(&self) -> RecordView {
        match self {
            Record::JourneyHeader(header) => RecordView::JourneyHeader(header@),
            Record::JourneyRecordStop(stop) => RecordView::JourneyRecordStop(stop@),
            Record::StopName(name) => RecordView::StopName(name@),
        }
    }
}

/// The views of a list of records.
pub open spec fn record_views(records: Seq<Record>) -> Seq<RecordView> {
    Seq::new(records.len(), |i: int| records[i]@)
}

/// The view of a decoded record, of a line passed over, or of a failure.
pub open spec fn record_outcome(decoded: Result<Option<Record>, DecodeError>) -> Result<
    Option<RecordView>,
    DecodeError,
> {
    match decoded {
        Ok(Some(record)) => Ok(Some(record@)),
        Ok(None) => Ok(None),
        Err(e) => Err(e),
    }
}

/// What one line holds: a record, nothing (the line is of a type that is not
/// decoded, or its stop is left out), or a fault in a line of a decoded type.
/// The result depends on the line and the replacement table alone.
pub open spec fn record_written(line: Seq<char>, replacements: Map<Seq<char>, Seq<char>>) -> Result<
    Option<RecordView>,
    DecodeError,
> {
    match record_kind(line) {
        RecordIdentifier::QS => match header_written(line) {
            Ok(header) => Ok(Some(RecordView::JourneyHeader(header))),
            Err(e) => Err(e),
        },
        RecordIdentifier::QO => match origin_written(line, replacements) {
            Ok(Some(stop)) => Ok(Some(RecordView::JourneyRecordStop(stop))),
            Ok(None) => Ok(None),
            Err(e) => Err(e),
        },
        RecordIdentifier::QI => match intermediate_written(line, replacements) {
            Ok(Some(stop)) => Ok(Some(RecordView::JourneyRecordStop(stop))),
            Ok(None) => Ok(None),
            Err(e) => Err(e),
        },
        RecordIdentifier::QT => match destination_written(line, replacements) {
            Ok(Some(stop)) => Ok(Some(RecordView::JourneyRecordStop(stop))),
            Ok(None) => Ok(None),
            Err(e) => Err(e),
        },
        RecordIdentifier::QL => match name_written(line, replacements) {
            Ok(Some(name)) => Ok(Some(RecordView::StopName(name))),
            Ok(None) => Ok(None),
            Err(e) => Err(e),
        },
        RecordIdentifier::Other => Ok(None),
    }
}

/// Decodes one line, given as its characters.
pub fn decode_chars(line: &[char], atco_mapping: &AtcoMap<Atco>) -> (decoded: Result<
    Option<Record>,
    DecodeError,
>)
    requires
        atco_mapping.wf(),
    ensures
        record_outcome(decoded) == record_written(line@, atco_mapping.texts()),
{
    if line.len() < KIND_TO {
        return Ok(None);
    }
    match RecordIdentifier::from_field(line, KIND_FROM, KIND_TO) {
        RecordIdentifier::QS => match JourneyHeader::from_qs_str(line) {
            Ok(header) => Ok(Some(Record::JourneyHeader(header))),
            Err(e) => Err(e),
        },
        RecordIdentifier::QO => match JourneyRecordStop::from_qo_str(line, atco_mapping) {
            Ok(Some(stop)) => Ok(Some(Record::JourneyRecordStop(stop))),
            Ok(None) => Ok(None),
            Err(e) => Err(e),
        },
        RecordIdentifier::QI => match JourneyRecordStop::from_qi_str(line, atco_mapping) {
            Ok(Some(stop)) => Ok(Some(Record::JourneyRecordStop(stop))),
            Ok(None) => Ok(None),
            Err(e) => Err(e),
        },
        RecordIdentifier::QT => match JourneyRecordStop::from_qt_str(line, atco_mapping) {
            Ok(Some(stop)) => Ok(Some(Record::JourneyRecordStop(stop))),
            Ok(None) => Ok(None),
            Err(e) => Err(e),
        },
        RecordIdentifier::QL => match StopName::from_ql_str(line, atco_mapping) {
            Ok(Some(name)) => Ok(Some(Record::StopName(name))),
            Ok(None) => Ok(None),
            Err(e) => Err(e),
        },
        RecordIdentifier::Other => Ok(None),
    }
}

/// Decodes one line of a timetable file. The line is decoded on its own:
/// neither the lines before it nor those after it have a part in the result.
pub fn decode_line(line: &str, atco_mapping: &AtcoMap<Atco>) -> (decoded: Result<
    Option<Record>,
    DecodeError,
>)
    requires
        atco_mapping.wf(),
    ensures
        record_outcome(decoded) == record_written(line@, atco_mapping.texts()),
{
    let chars = chars_of(line);
    decode_chars(chars.as_slice(), atco_mapping)
}

/// `text` without its carriage returns.
pub open spec fn without_carriage_returns(text: Seq<char>) -> Seq<char> {
    text.filter(|c: char| c != '\r')
}

/// The pieces into which the line feeds of `text` cut it: one more piece than
/// there are line feeds.
pub open spec fn split_at_line_feeds(text: Seq<char>) -> Seq<Seq<char>>
    decreases text.len(),
{
    if text.len() == 0 {
        seq![Seq::<char>::empty()]
    } else {
        let before = split_at_line_feeds(text.drop_last());
        if text.last() == '\n' {
            before.push(Seq::<char>::empty())
        } else {
            before.drop_last().push(before.last().push(text.last()))
        }
    }
}

/// The lines of a file's text: carriage returns are removed, the text is cut
/// at its line feeds, and the last piece is dropped if it is empty.
pub open spec fn lines_of(text: Seq<char>) -> Seq<Seq<char>> {
    let pieces = split_at_line_feeds(without_carriage_returns(text));
    if pieces.last().len() == 0 {
        pieces.drop_last()
    } else {
        pieces
    }
}

/// The texts of a list of strings.
pub open spec fn texts_of(lines: Seq<String>) -> Seq<Seq<char>> {
    Seq::new(lines.len(), |i: int| lines[i]@)
}

/// Cuts the text of a file into its lines.
pub fn lines_of_text(raw_cif_text: &str) -> (lines: Vec<String>)
    ensures
        texts_of(lines@) == lines_of(raw_cif_text@),
{
    let mut lines: Vec<String> = Vec::new();
    let mut current = String::new();
    let ghost kept = |c: char| c != '\r';
    proof {
        reveal(Seq::filter);
        assert(raw_cif_text@.take(0) == Seq::<char>::empty());
        assert(texts_of(lines@).push(current@) == seq![Seq::<char>::empty()]);
    }
    for c in it: raw_cif_text.chars()
        invariant
            it.seq() == raw_cif_text@,
            kept == |c: char| c != '\r',
            split_at_line_feeds(it.seq().take(it.index() as int).filter(kept)) == texts_of(
                lines@,
            ).push(current@),
    {
        proof {
            reveal(Seq::filter);
            let seen = it.seq().take(it.index() as int);
            let next = it.seq().take(it.index() as int + 1);
            assert(next.drop_last() == seen);
            assert(next.last() == c);
            if c != '\r' {
                assert(next.filter(kept) == seen.filter(kept).push(c));
                assert(seen.filter(kept).push(c).drop_last() == seen.filter(kept));
            } else {
                assert(next.filter(kept) == seen.filter(kept));
            }
            assert(texts_of(lines@).push(current@).drop_last() == texts_of(lines@));
        }
        let ghost before = texts_of(lines@);
        if c == '\r' {
        } else if c == '\n' {
            lines.push(current);
            current = String::new();
            assert(texts_of(lines@) == before.push(lines@.last()@));
        } else {
            current.push(c);
        }
    }
    assert(raw_cif_text@.take(raw_cif_text@.len() as int) == raw_cif_text@);
    let ghost before = texts_of(lines@);
    if current.as_str().is_empty() {
        assert(before.push(current@).drop_last() == before);
    } else {
        lines.push(current);
        assert(texts_of(lines@) == before.push(lines@.last()@));
    }
    lines
}

/// The outcome of decoding each of `lines`, in order.
pub open spec fn outcomes_of(lines: Seq<Seq<char>>, replacements: Map<Seq<char>, Seq<char>>) -> Seq<
    Result<Option<RecordView>, DecodeError>,
> {
    Seq::new(lines.len(), |i: int| record_written(lines[i], replacements))
}

/// The records among `outcomes`, in their order.
pub open spec fn records_kept(outcomes: Seq<Result<Option<RecordView>, DecodeError>>) -> Seq<
    RecordView,
>
    decreases outcomes.len(),
{
    if outcomes.len() == 0 {
        Seq::empty()
    } else {
        match outcomes.last() {
            Ok(Some(record)) => records_kept(outcomes.drop_last()).push(record),
            _ => records_kept(outcomes.drop_last()),
        }
    }
}

/// The number of faults among `outcomes`.
pub open spec fn faults_counted(outcomes: Seq<Result<Option<RecordView>, DecodeError>>) -> nat
    decreases outcomes.len(),
{
    if outcomes.len() == 0 {
        0
    } else if outcomes.last() is Err {
        faults_counted(outcomes.drop_last()) + 1
    } else {
        faults_counted(outcomes.drop_last())
    }
}

/// There are no more faults than outcomes.
proof fn lemma_faults_bound(outcomes: Seq<Result<Option<RecordView>, DecodeError>>)
    ensures
        faults_counted(outcomes) <= outcomes.len(),
    decreases outcomes.len(),
{
    if outcomes.len() > 0 {
        lemma_faults_bound(outcomes.drop_last());
    }
}

/// The views of a list of decoding outcomes.
pub open spec fn outcome_views(decoded: Seq<Result<Option<Record>, DecodeError>>) -> Seq<
    Result<Option<RecordView>, DecodeError>,
> {
    Seq::new(decoded.len(), |i: int| record_outcome(decoded[i]))
}

/// What decoding a file gave: its records in the order of their lines, and
/// the number of lines of a decoded type that were left out for a fault.
#[derive(Clone, Debug, PartialEq)]
pub struct ParseOutcome {
    pub records: Vec<Record>,
    pub malformed_lines: usize,
}

/// Gathers the records of a file from the outcomes of its lines, which are
/// given in the order of the lines: each record is kept at its place, and the
/// faults are counted.
pub fn assemble(decoded: Vec<Result<Option<Record>, DecodeError>>) -> (outcome: ParseOutcome)
    ensures
        record_views(outcome.records@) == records_kept(outcome_views(decoded@)),
        outcome.malformed_lines == faults_counted(outcome_views(decoded@)),
{
    let mut records: Vec<Record> = Vec::new();
    let mut malformed_lines: usize = 0;
    let ghost all = outcome_views(decoded@);
    let n: usize = decoded.len();
    proof {
        assert(all.take(0) == Seq::<Result<Option<RecordView>, DecodeError>>::empty());
        assert(record_views(records@) == Seq::<RecordView>::empty());
    }
    for item in it: decoded.into_iter()
        invariant
            it.seq().len() == n,
            all == outcome_views(it.seq()),
            record_views(records@) == records_kept(all.take(it.index() as int)),
            malformed_lines == faults_counted(all.take(it.index() as int)),
    {
        proof {
            let seen = all.take(it.index() as int);
            let next = all.take(it.index() as int + 1);
            assert(next.drop_last() == seen);
            assert(next.last() == record_outcome(item));
            lemma_faults_bound(seen);
        }
        let ghost before = record_views(records@);
        match item {
            Ok(Some(record)) => {
                records.push(record);
                assert(record_views(records@) == before.push(record@));
            },
            Ok(None) => {},
            Err(_) => {
                malformed_lines += 1;
            },
        }
    }
    assert(all.take(n as int) == all);
    ParseOutcome { records, malformed_lines }
}

/// Decodes the text of a timetable file: every line on its own, the records
/// in the order of their lines. A line of a decoded type that holds a fault
/// is left out and counted; it has no part in what the other lines give.
pub fn parse(raw_cif_text: &str, atco_mapping: &AtcoMap<Atco>) -> (outcome: ParseOutcome)
    requires
        atco_mapping.wf(),
    ensures
        record_views(outcome.records@) == records_kept(
            outcomes_of(lines_of(raw_cif_text@), atco_mapping.texts()),
        ),
        outcome.malformed_lines == faults_counted(
            outcomes_of(lines_of(raw_cif_text@), atco_mapping.texts()),
        ),
{
    let lines = lines_of_text(raw_cif_text);
    let mut decoded: Vec<Result<Option<Record>, DecodeError>> = Vec::new();
    let mut i: usize = 0;
    while i < lines.len()
        invariant
            i <= lines.len(),
            atco_mapping.wf(),
            texts_of(lines@) == lines_of(raw_cif_text@),
            outcome_views(decoded@) == outcomes_of(
                lines_of(raw_cif_text@),
                atco_mapping.texts(),
            ).take(i as int),
        decreases lines.len() - i,
    {
        let ghost before = outcome_views(decoded@);
        let one = decode_line(lines[i].as_str(), atco_mapping);
        decoded.push(one);
        proof {
            assert(texts_of(lines@)[i as int] == lines@[i as int]@);
            assert(outcome_views(decoded@) == before.push(record_outcome(one)));
        }
        i += 1;
    }
    assert(outcomes_of(lines_of(raw_cif_text@), atco_mapping.texts()).take(i as int)
        == outcomes_of(lines_of(raw_cif_text@), atco_mapping.texts()));
    assemble(decoded)
}

} // verus!
