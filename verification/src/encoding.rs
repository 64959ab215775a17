//! Writing records back into their columns.
//!
//! A decoded record is written as a line of its type: every field that the
//! decoder reads is put back into its columns, text padded with spaces on the
//! right, numbers as digits; the columns that the decoder does not read are
//! left blank. Decoding such a line gives the record back.

use crate::atco::mapped_code;
use crate::records::{
    category_written, date_written, days_written, destination_written, field, header_written,
    identifier_named, intermediate_written, name_written, origin_written, record_kind,
    record_written, time_written, ActivityFlag, Category, Date, JourneyHeader,
    JourneyHeaderView, JourneyRecordStop, JourneyRecordStopView, OperatingDays, Record,
    RecordIdentifier, RecordView, SecondsPastMidnight, Status, StopName, StopNameView,
    QI_ACTIVITY, QI_DEPARTURE_FROM, QI_DEPARTURE_TO, QL_CODE_FROM, QL_CODE_TO, QL_NAME_FROM,
    QL_NAME_TO, QL_STATUS, QS_DAYS_FROM, QS_DAYS_TO, QS_FIRST_DATE_FROM, QS_FIRST_DATE_TO,
    QS_JOURNEY_FROM, QS_JOURNEY_TO, QS_LAST_DATE_FROM, QS_LAST_DATE_TO, QS_OPERATOR_FROM,
    QS_OPERATOR_TO, QS_ROUTE_FROM, QS_ROUTE_TO, QS_STATUS, QS_VEHICLE_FROM, QS_VEHICLE_TO,
    STOP_CODE_FROM, STOP_CODE_TO, STOP_TIME_FROM, STOP_TIME_TO,
};
use crate::text::{
    all_digits, decimal_value, is_digit, is_whitespace, leading_whitespace, pow10,
    trailing_whitespace, trim, without_commas,
};
use vstd::prelude::*;
use vstd::string::StringExecFns;

verus! {

/// A run of `n` spaces.
pub open spec fn spaces(n: nat) -> Seq<char> {
    Seq::new(n, |i: int| ' ')
}

/// `text` followed by as many spaces as it takes to fill `width` columns; a
/// text that fills them or more is left as it is.
pub open spec fn padded(text: Seq<char>, width: nat) -> Seq<char> {
    if text.len() >= width {
        text
    } else {
        text + spaces((width - text.len()) as nat)
    }
}

/// A text that neither starts nor ends with white space.
pub open spec fn tight(text: Seq<char>) -> bool {
    text.len() == 0 || (!is_whitespace(text[0]) && !is_whitespace(text.last()))
}

/// The white space at the start of a text ends at its first other character.
proof fn lemma_leading_whitespace_ends(s: Seq<char>)
    ensures
        leading_whitespace(s) <= s.len(),
        leading_whitespace(s) < s.len() ==> !is_whitespace(s[leading_whitespace(s) as int]),
    decreases s.len(),
{
    if s.len() > 0 && is_whitespace(s[0]) {
        lemma_leading_whitespace_ends(s.drop_first());
        let n = leading_whitespace(s.drop_first());
        if n < s.drop_first().len() {
            assert(s.drop_first()[n as int] == s[n as int + 1]);
        }
    }
}

/// The white space at the end of a text starts after its last other character.
proof fn lemma_trailing_whitespace_ends(s: Seq<char>)
    ensures
        trailing_whitespace(s) <= s.len(),
        trailing_whitespace(s) < s.len() ==> !is_whitespace(
            s[s.len() - 1 - trailing_whitespace(s)],
        ),
    decreases s.len(),
{
    if s.len() > 0 && is_whitespace(s.last()) {
        lemma_trailing_whitespace_ends(s.drop_last());
        let n = trailing_whitespace(s.drop_last());
        if n < s.drop_last().len() {
            assert(s.drop_last()[s.drop_last().len() - 1 - n as int] == s[s.len() - 2 - n as int]);
        }
    }
}

/// What trimming leaves is tight and no longer than the text was.
pub proof fn lemma_trim_is_tight(s: Seq<char>)
    ensures
        tight(trim(s)),
        trim(s).len() <= s.len(),
{
    lemma_leading_whitespace_ends(s);
    let t = s.skip(leading_whitespace(s) as int);
    lemma_trailing_whitespace_ends(t);
    let kept = t.take(t.len() - trailing_whitespace(t));
    if kept.len() > 0 {
        assert(kept[0] == s[leading_whitespace(s) as int]);
        assert(kept.last() == t[t.len() - 1 - trailing_whitespace(t)]);
    }
}

proof fn lemma_spaces_are_whitespace(n: nat)
    ensures
        leading_whitespace(spaces(n)) == n,
    decreases n,
{
    if n > 0 {
        assert(spaces(n).drop_first() == spaces((n - 1) as nat));
        lemma_spaces_are_whitespace((n - 1) as nat);
    }
}

proof fn lemma_trailing_spaces(text: Seq<char>, n: nat)
    requires
        text.len() > 0 ==> !is_whitespace(text.last()),
    ensures
        trailing_whitespace(text + spaces(n)) == n,
    decreases n,
{
    let whole = text + spaces(n);
    if n > 0 {
        assert(whole.last() == ' ');
        assert(whole.drop_last() == text + spaces((n - 1) as nat));
        lemma_trailing_spaces(text, (n - 1) as nat);
    } else {
        assert(whole == text);
    }
}

/// A tight text that is padded to its columns and trimmed again is itself.
pub proof fn lemma_trim_padded(text: Seq<char>, width: nat)
    requires
        tight(text),
        text.len() <= width,
    ensures
        padded(text, width).len() == width,
        trim(padded(text, width)) == text,
{
    let k = (width - text.len()) as nat;
    let whole = padded(text, width);
    if text.len() == 0 {
        assert(whole == spaces(k));
        lemma_spaces_are_whitespace(k);
        assert(whole.skip(k as int) == Seq::<char>::empty());
        assert(trim(whole) == text);
    } else {
        assert(whole[0] == text[0]);
        assert(leading_whitespace(whole) == 0);
        assert(whole.skip(0) == whole);
        lemma_trailing_spaces(text, k);
        assert(whole.take(whole.len() - k) == text);
    }
}

/// A text without commas loses nothing when its commas are removed.
proof fn lemma_nothing_to_remove(text: Seq<char>)
    requires
        forall|i: int| 0 <= i < text.len() ==> text[i] != ',',
    ensures
        without_commas(text) == text,
    decreases text.len(),
{
    reveal(Seq::filter);
    if text.len() > 0 {
        lemma_nothing_to_remove(text.drop_last());
        assert(text.drop_last().push(text.last()) == text);
    }
}

/// What the removal of commas leaves holds no comma.
proof fn lemma_without_commas_has_none(text: Seq<char>)
    ensures
        forall|i: int| 0 <= i < without_commas(text).len() ==> without_commas(text)[i] != ',',
    decreases text.len(),
{
    reveal(Seq::filter);
    if text.len() > 0 {
        lemma_without_commas_has_none(text.drop_last());
    }
}

/// The removal of commas makes no text longer.
proof fn lemma_without_commas_is_shorter(text: Seq<char>)
    ensures
        without_commas(text).len() <= text.len(),
    decreases text.len(),
{
    reveal(Seq::filter);
    if text.len() > 0 {
        lemma_without_commas_is_shorter(text.drop_last());
    }
}

/// The character that writes the digit `d`.
pub open spec fn digit_char(d: int) -> char {
    seq!['0', '1', '2', '3', '4', '5', '6', '7', '8', '9'][d]
}

/// The number `value` in `width` decimal digits, with leading zeros.
pub open spec fn digits(value: int, width: nat) -> Seq<char>
    decreases width,
{
    if width == 0 {
        Seq::empty()
    } else {
        digits(value / 10, (width - 1) as nat).push(digit_char(value % 10))
    }
}

/// A number that fits its digits is read back from them.
pub proof fn lemma_digits_read_back(value: int, width: nat)
    requires
        0 <= value < pow10(width),
    ensures
        digits(value, width).len() == width,
        all_digits(digits(value, width)),
        decimal_value(digits(value, width)) == value,
    decreases width,
{
    if width > 0 {
        let rest = digits(value / 10, (width - 1) as nat);
        lemma_digits_read_back(value / 10, (width - 1) as nat);
        let whole = rest.push(digit_char(value % 10));
        assert(whole.drop_last() == rest);
        assert(is_digit(digit_char(value % 10)));
        assert(crate::text::digit_value(digit_char(value % 10)) == value % 10);
        assert forall|i: int| 0 <= i < whole.len() implies is_digit(#[trigger] whole[i]) by {
            if i < rest.len() {
                assert(whole[i] == rest[i]);
            }
        }
    }
}

/// The letter that codes a status.
pub open spec fn status_letter(status: Status) -> char {
    match status {
        Status::New => 'N',
        Status::Delete => 'D',
        Status::Revise => 'R',
    }
}

/// The letter that codes an activity flag.
pub open spec fn activity_letter(flag: ActivityFlag) -> char {
    match flag {
        ActivityFlag::Both => 'B',
        ActivityFlag::PickUpOnly => 'P',
        ActivityFlag::SetDownOnly => 'S',
        ActivityFlag::Neither => 'N',
    }
}

/// The seven columns that mark the days of operation.
pub open spec fn day_marks(days: Seq<bool>) -> Seq<char> {
    Seq::new(
        7,
        |i: int|
            if days[i] {
                '1'
            } else {
                '0'
            },
    )
}

/// The marks of the days are read back as the days.
pub proof fn lemma_days_read_back(days: Seq<bool>)
    requires
        days.len() == 7,
    ensures
        days_written(day_marks(days)) == days,
{
    assert(days_written(day_marks(days)) =~= days);
}

/// The hours that a time is written with: its whole hours, and 99 where
/// those would take three digits.
pub open spec fn written_hours(time: SecondsPastMidnight) -> int {
    if time.0 / 3600 > 99 {
        99
    } else {
        time.0 as int / 3600
    }
}

/// A time of day as the four digits `HHMM`.
pub open spec fn time_digits(time: SecondsPastMidnight) -> Seq<char> {
    digits(written_hours(time), 2) + digits((time.0 - written_hours(time) * 3600) / 60, 2)
}

/// A time that was read from four digits is read back from its own digits.
pub proof fn lemma_time_read_back(field: Seq<char>)
    requires
        time_written(field) is Some,
    ensures
        time_digits(time_written(field)->0).len() == 4,
        time_written(time_digits(time_written(field)->0)) == time_written(field),
{
    let h0 = decimal_value(field.subrange(0, 2));
    let m0 = decimal_value(field.subrange(2, 4));
    assert(all_digits(field.subrange(0, 2))) by {
        assert forall|i: int| 0 <= i < 2 implies is_digit(#[trigger] field.subrange(0, 2)[i]) by {
            assert(field.subrange(0, 2)[i] == field[i]);
        }
    }
    assert(all_digits(field.subrange(2, 4))) by {
        assert forall|i: int| 0 <= i < 2 implies is_digit(#[trigger] field.subrange(2, 4)[i]) by {
            assert(field.subrange(2, 4)[i] == field[i + 2]);
        }
    }
    crate::text::lemma_decimal_value_bound(field.subrange(0, 2));
    crate::text::lemma_decimal_value_bound(field.subrange(2, 4));
    crate::text::lemma_pow10_values();
    let time = time_written(field)->0;
    assert(time.0 == h0 * 3600 + m0 * 60);
    let h = written_hours(time);
    let m = (time.0 - h * 3600) / 60;
    assert(0 <= h <= 99);
    assert(0 <= m <= 99);
    assert(h * 3600 + m * 60 == time.0);
    lemma_digits_read_back(h, 2);
    lemma_digits_read_back(m, 2);
    let again = time_digits(time);
    assert(again.subrange(0, 2) == digits(h, 2));
    assert(again.subrange(2, 4) == digits(m, 2));
    assert forall|i: int| 0 <= i < again.len() implies is_digit(#[trigger] again[i]) by {
        if i < 2 {
            assert(again[i] == digits(h, 2)[i]);
        } else {
            assert(again[i] == digits(m, 2)[i - 2]);
        }
    }
}

/// A date as the eight digits `YYYYMMDD`.
pub open spec fn date_digits(date: Date) -> Seq<char> {
    digits(date.year as int, 4) + digits(date.month as int, 2) + digits(date.day as int, 2)
}

/// A date that was read from eight digits is read back from its own digits.
pub proof fn lemma_date_read_back(field: Seq<char>)
    requires
        date_written(field) is Some,
    ensures
        date_digits(date_written(field)->0).len() == 8,
        date_written(date_digits(date_written(field)->0)) == date_written(field),
{
    let fy = field.subrange(0, 4);
    let fm = field.subrange(4, 6);
    let fd = field.subrange(6, 8);
    assert(all_digits(fy)) by {
        assert forall|i: int| 0 <= i < 4 implies is_digit(#[trigger] fy[i]) by {
            assert(fy[i] == field[i]);
        }
    }
    assert(all_digits(fm)) by {
        assert forall|i: int| 0 <= i < 2 implies is_digit(#[trigger] fm[i]) by {
            assert(fm[i] == field[i + 4]);
        }
    }
    assert(all_digits(fd)) by {
        assert forall|i: int| 0 <= i < 2 implies is_digit(#[trigger] fd[i]) by {
            assert(fd[i] == field[i + 6]);
        }
    }
    crate::text::lemma_decimal_value_bound(fy);
    crate::text::lemma_decimal_value_bound(fm);
    crate::text::lemma_decimal_value_bound(fd);
    crate::text::lemma_pow10_values();
    let date = date_written(field)->0;
    assert(date.year == decimal_value(fy));
    assert(date.month == decimal_value(fm));
    assert(date.day == decimal_value(fd));
    lemma_digits_read_back(date.year as int, 4);
    lemma_digits_read_back(date.month as int, 2);
    lemma_digits_read_back(date.day as int, 2);
    let again = date_digits(date);
    assert(again.subrange(0, 4) == digits(date.year as int, 4));
    assert(again.subrange(4, 6) == digits(date.month as int, 2));
    assert(again.subrange(6, 8) == digits(date.day as int, 2));
    assert forall|i: int| 0 <= i < again.len() implies is_digit(#[trigger] again[i]) by {
        if i < 4 {
            assert(again[i] == digits(date.year as int, 4)[i]);
        } else if i < 6 {
            assert(again[i] == digits(date.month as int, 2)[i - 4]);
        } else {
            assert(again[i] == digits(date.day as int, 2)[i - 6]);
        }
    }
}

/// The vehicle-type field that stands for a category: the name of a mode for
/// a passenger service, blank for any other.
pub open spec fn category_field(category: Category) -> Seq<char> {
    match category {
        Category::Passenger => padded(seq!['b', 'u', 's'], 8),
        Category::Other => spaces(8),
    }
}

/// The field of a category is read back as the category.
pub proof fn lemma_category_read_back(category: Category)
    ensures
        category_field(category).len() == 8,
        category_written(category_field(category)) == category,
{
    reveal_strlit("bus");
    reveal_strlit("coach");
    reveal_strlit("ferry");
    reveal_strlit("light rail");
    reveal_strlit("metro");
    reveal_strlit("national rail");
    reveal_strlit("tram");
    reveal_strlit("tube");
    reveal_strlit("lightrai");
    reveal_strlit("national");
    reveal_strlit("subway");
    reveal_strlit("rail");
    match category {
        Category::Passenger => {
            let bus = seq!['b', 'u', 's'];
            lemma_trim_padded(bus, 8);
            assert(bus =~= "bus"@);
            assert(crate::text::spells(bus, "bus"@));
        },
        Category::Other => {
            lemma_trim_padded(Seq::<char>::empty(), 8);
            assert(padded(Seq::<char>::empty(), 8) == spaces(8));
        },
    }
}

/// The record types that the two letters of the decoded lines announce.
proof fn lemma_kinds_of_letters()
    ensures
        identifier_named(seq!['Q', 'S']) == RecordIdentifier::QS,
        identifier_named(seq!['Q', 'O']) == RecordIdentifier::QO,
        identifier_named(seq!['Q', 'I']) == RecordIdentifier::QI,
        identifier_named(seq!['Q', 'T']) == RecordIdentifier::QT,
        identifier_named(seq!['Q', 'L']) == RecordIdentifier::QL,
{
    reveal_strlit("QS");
    reveal_strlit("QO");
    reveal_strlit("QI");
    reveal_strlit("QT");
    reveal_strlit("QL");
    assert(seq!['Q', 'S'] =~= "QS"@);
    assert(seq!['Q', 'O'] =~= "QO"@);
    assert(seq!['Q', 'I'] =~= "QI"@);
    assert(seq!['Q', 'T'] =~= "QT"@);
    assert(seq!['Q', 'L'] =~= "QL"@);
    assert("QS"@[1] == 'S');
    assert("QO"@[1] == 'O');
    assert("QI"@[1] == 'I');
    assert("QT"@[1] == 'T');
    assert("QL"@[1] == 'L');
}

/// The `QS` line that holds a journey header.
pub open spec fn header_line(h: JourneyHeaderView) -> Seq<char> {
    seq!['Q', 'S', status_letter(h.status)] + padded(h.operator, 4) + padded(
        h.unique_journey_identifier,
        6,
    ) + date_digits(h.date_runs_from) + date_digits(h.date_runs_to) + day_marks(h.operating_days)
        + spaces(2) + padded(h.route_number, 4) + spaces(6) + category_field(h.category)
}

/// A decoded journey header, written back as a line, is decoded to itself.
pub proof fn lemma_header_round_trip(line: Seq<char>, h: JourneyHeaderView)
    requires
        header_written(line) == Ok::<JourneyHeaderView, crate::records::DecodeError>(h),
    ensures
        record_kind(header_line(h)) == RecordIdentifier::QS,
        header_written(header_line(h)) == header_written(line),
{
    lemma_kinds_of_letters();
    let again = header_line(h);
    lemma_trim_is_tight(field(line, QS_OPERATOR_FROM, QS_OPERATOR_TO));
    lemma_trim_is_tight(field(line, QS_JOURNEY_FROM, QS_JOURNEY_TO));
    lemma_trim_is_tight(field(line, QS_ROUTE_FROM, QS_ROUTE_TO));
    lemma_trim_padded(h.operator, 4);
    lemma_trim_padded(h.unique_journey_identifier, 6);
    lemma_trim_padded(h.route_number, 4);
    lemma_date_read_back(field(line, QS_FIRST_DATE_FROM, QS_FIRST_DATE_TO));
    lemma_date_read_back(field(line, QS_LAST_DATE_FROM, QS_LAST_DATE_TO));
    lemma_days_read_back(h.operating_days);
    lemma_category_read_back(h.category);
    assert(again.len() == 56);
    assert(field(again, 0, 2) =~= seq!['Q', 'S']);
    assert(again[QS_STATUS as int] == status_letter(h.status));
    assert(field(again, QS_OPERATOR_FROM, QS_OPERATOR_TO) =~= padded(h.operator, 4));
    assert(field(again, QS_JOURNEY_FROM, QS_JOURNEY_TO) =~= padded(
        h.unique_journey_identifier,
        6,
    ));
    assert(field(again, QS_FIRST_DATE_FROM, QS_FIRST_DATE_TO) =~= date_digits(h.date_runs_from));
    assert(field(again, QS_LAST_DATE_FROM, QS_LAST_DATE_TO) =~= date_digits(h.date_runs_to));
    assert(field(again, QS_DAYS_FROM, QS_DAYS_TO) =~= day_marks(h.operating_days));
    assert(field(again, QS_ROUTE_FROM, QS_ROUTE_TO) =~= padded(h.route_number, 4));
    assert(field(again, QS_VEHICLE_FROM, QS_VEHICLE_TO) =~= category_field(h.category));
    assert(header_written(again) matches Ok(g) && g == h);
}

/// The four columns of a time that may be missing: blank where it is.
pub open spec fn time_field(time: Option<SecondsPastMidnight>) -> Seq<char> {
    match time {
        Some(t) => time_digits(t),
        None => spaces(4),
    }
}

/// The `QO`, `QI` or `QT` line that holds a stop of a journey: `QO` for the
/// stop at which the journey starts, `QT` for a stop without departure, `QI`
/// for every other.
pub open spec fn stop_line(stop: JourneyRecordStopView) -> Seq<char> {
    if stop.is_first_stop {
        seq!['Q', 'O'] + padded(stop.atco_code, 12) + time_field(stop.departure_time)
    } else if stop.departure_time is None {
        seq!['Q', 'T'] + padded(stop.atco_code, 12) + time_field(stop.arrival_time)
    } else {
        seq!['Q', 'I'] + padded(stop.atco_code, 12) + time_field(stop.arrival_time) + time_field(
            stop.departure_time,
        ) + seq![activity_letter(stop.activity_flag)]
    }
}

/// The identifier of a stop that was decoded without replacement table fits
/// its columns and is read back from them.
proof fn lemma_code_read_back(raw: Seq<char>, code: Seq<char>)
    requires
        raw.len() == 12,
        mapped_code(raw, Map::empty()) == Some(code),
    ensures
        padded(code, 12).len() == 12,
        mapped_code(padded(code, 12), Map::empty()) == Some(code),
{
    lemma_trim_is_tight(raw);
    lemma_trim_padded(code, 12);
}

/// A decoded origin, written back as a line, is decoded to itself.
pub proof fn lemma_origin_round_trip(line: Seq<char>, stop: JourneyRecordStopView)
    requires
        origin_written(line, Map::empty()) == Ok::<
            Option<JourneyRecordStopView>,
            crate::records::DecodeError,
        >(Some(stop)),
    ensures
        record_kind(stop_line(stop)) == RecordIdentifier::QO,
        origin_written(stop_line(stop), Map::empty()) == origin_written(line, Map::empty()),
{
    lemma_kinds_of_letters();
    let again = stop_line(stop);
    lemma_code_read_back(field(line, STOP_CODE_FROM, STOP_CODE_TO), stop.atco_code);
    lemma_time_read_back(field(line, STOP_TIME_FROM, STOP_TIME_TO));
    assert(again.len() == 18);
    assert(field(again, 0, 2) =~= seq!['Q', 'O']);
    assert(field(again, STOP_CODE_FROM, STOP_CODE_TO) =~= padded(stop.atco_code, 12));
    assert(field(again, STOP_TIME_FROM, STOP_TIME_TO) =~= time_field(stop.departure_time));
}

/// A decoded destination, written back as a line, is decoded to itself.
pub proof fn lemma_destination_round_trip(line: Seq<char>, stop: JourneyRecordStopView)
    requires
        destination_written(line, Map::empty()) == Ok::<
            Option<JourneyRecordStopView>,
            crate::records::DecodeError,
        >(Some(stop)),
    ensures
        record_kind(stop_line(stop)) == RecordIdentifier::QT,
        destination_written(stop_line(stop), Map::empty()) == destination_written(
            line,
            Map::empty(),
        ),
{
    lemma_kinds_of_letters();
    let again = stop_line(stop);
    lemma_code_read_back(field(line, STOP_CODE_FROM, STOP_CODE_TO), stop.atco_code);
    lemma_time_read_back(field(line, STOP_TIME_FROM, STOP_TIME_TO));
    assert(again.len() == 18);
    assert(field(again, 0, 2) =~= seq!['Q', 'T']);
    assert(field(again, STOP_CODE_FROM, STOP_CODE_TO) =~= padded(stop.atco_code, 12));
    assert(field(again, STOP_TIME_FROM, STOP_TIME_TO) =~= time_field(stop.arrival_time));
}

/// A decoded intermediate stop, written back as a line, is decoded to itself.
pub proof fn lemma_intermediate_round_trip(line: Seq<char>, stop: JourneyRecordStopView)
    requires
        intermediate_written(line, Map::empty()) == Ok::<
            Option<JourneyRecordStopView>,
            crate::records::DecodeError,
        >(Some(stop)),
    ensures
        record_kind(stop_line(stop)) == RecordIdentifier::QI,
        intermediate_written(stop_line(stop), Map::empty()) == intermediate_written(
            line,
            Map::empty(),
        ),
{
    lemma_kinds_of_letters();
    let again = stop_line(stop);
    lemma_code_read_back(field(line, STOP_CODE_FROM, STOP_CODE_TO), stop.atco_code);
    lemma_time_read_back(field(line, STOP_TIME_FROM, STOP_TIME_TO));
    lemma_time_read_back(field(line, QI_DEPARTURE_FROM, QI_DEPARTURE_TO));
    assert(again.len() == 23);
    assert(field(again, 0, 2) =~= seq!['Q', 'I']);
    assert(field(again, STOP_CODE_FROM, STOP_CODE_TO) =~= padded(stop.atco_code, 12));
    assert(field(again, STOP_TIME_FROM, STOP_TIME_TO) =~= time_field(stop.arrival_time));
    assert(field(again, QI_DEPARTURE_FROM, QI_DEPARTURE_TO) =~= time_field(
        stop.departure_time,
    ));
    assert(again[QI_ACTIVITY as int] == activity_letter(stop.activity_flag));
}

/// The `QL` line that holds the name of a stop.
pub open spec fn name_line(name: StopNameView) -> Seq<char> {
    seq!['Q', 'L', status_letter(name.status)] + padded(name.atco_code, 12) + padded(
        name.name,
        48,
    )
}

/// A decoded stop name, written back as a line, is decoded to itself, unless
/// the removal of commas has left white space at either end of the name.
pub proof fn lemma_name_round_trip(line: Seq<char>, name: StopNameView)
    requires
        name_written(line, Map::empty()) == Ok::<Option<StopNameView>, crate::records::DecodeError>(
            Some(name),
        ),
        tight(name.name),
    ensures
        record_kind(name_line(name)) == RecordIdentifier::QL,
        name_written(name_line(name), Map::empty()) == name_written(line, Map::empty()),
{
    lemma_kinds_of_letters();
    let again = name_line(name);
    let raw = field(line, QL_NAME_FROM, QL_NAME_TO);
    lemma_trim_is_tight(field(line, QL_CODE_FROM, QL_CODE_TO));
    lemma_trim_padded(name.atco_code, 12);
    lemma_trim_is_tight(raw);
    lemma_without_commas_has_none(trim(raw));
    lemma_nothing_to_remove(name.name);
    lemma_without_commas_is_shorter(trim(raw));
    lemma_trim_padded(name.name, 48);
    assert(again.len() == 63);
    assert(field(again, 0, 2) =~= seq!['Q', 'L']);
    assert(again[QL_STATUS as int] == status_letter(name.status));
    assert(field(again, QL_CODE_FROM, QL_CODE_TO) =~= padded(name.atco_code, 12));
    assert(field(again, QL_NAME_FROM, QL_NAME_TO) =~= padded(name.name, 48));
}

/// The line that holds a record.
pub open spec fn record_line(record: RecordView) -> Seq<char> {
    match record {
        RecordView::JourneyHeader(header) => header_line(header),
        RecordView::JourneyRecordStop(stop) => stop_line(stop),
        RecordView::StopName(name) => name_line(name),
    }
}

/// Whether writing a record back and decoding it again is held to give the
/// record: every record but a stop name that starts or ends with white space.
pub open spec fn writable(record: RecordView) -> bool {
    match record {
        RecordView::StopName(name) => tight(name.name),
        _ => true,
    }
}

/// Decoding a line, writing the record back into its columns and decoding
/// that line gives the same record: what the decoder reads of a line is kept
/// when the line is written again.
pub proof fn lemma_round_trip(line: Seq<char>, record: RecordView)
    requires
        record_written(line, Map::empty()) == Ok::<Option<RecordView>, crate::records::DecodeError>(
            Some(record),
        ),
        writable(record),
    ensures
        record_written(record_line(record), Map::empty()) == record_written(line, Map::empty()),
{
    match record_kind(line) {
        RecordIdentifier::QS => {
            lemma_header_round_trip(line, header_written(line)->Ok_0);
        },
        RecordIdentifier::QO => {
            lemma_origin_round_trip(line, origin_written(line, Map::empty())->Ok_0->0);
        },
        RecordIdentifier::QI => {
            lemma_intermediate_round_trip(
                line,
                intermediate_written(line, Map::empty())->Ok_0->0,
            );
        },
        RecordIdentifier::QT => {
            lemma_destination_round_trip(line, destination_written(line, Map::empty())->Ok_0->0);
        },
        RecordIdentifier::QL => {
            lemma_name_round_trip(line, name_written(line, Map::empty())->Ok_0->0);
        },
        RecordIdentifier::Other => {},
    }
}

fn push_spaces(line: &mut String, n: usize)
    ensures
        final(line)@ == old(line)@ + spaces(n as nat),
{
    let ghost start = line@;
    let mut i: usize = 0;
    assert(start + spaces(0) == start);
    while i < n
        invariant
            i <= n,
            line@ == start + spaces(i as nat),
        decreases n - i,
    {
        line.push(' ');
        assert((start + spaces(i as nat)).push(' ') == start + spaces((i + 1) as nat));
        i += 1;
    }
}

fn push_padded(line: &mut String, text: &str, width: usize)
    ensures
        final(line)@ == old(line)@ + padded(text@, width as nat),
{
    let ghost start = line@;
    let n = text.unicode_len();
    line.append(text);
    let missing = if n < width {
        width - n
    } else {
        0
    };
    push_spaces(line, missing);
    assert(text@ + spaces(0) == text@);
    assert(start + text@ + spaces(missing as nat) == start + padded(text@, width as nat));
}

fn digit_of(d: u32) -> (c: char)
    requires
        d < 10,
    ensures
        c == digit_char(d as int),
{
    if d == 0 {
        '0'
    } else if d == 1 {
        '1'
    } else if d == 2 {
        '2'
    } else if d == 3 {
        '3'
    } else if d == 4 {
        '4'
    } else if d == 5 {
        '5'
    } else if d == 6 {
        '6'
    } else if d == 7 {
        '7'
    } else if d == 8 {
        '8'
    } else {
        '9'
    }
}

fn push_digits(line: &mut String, value: u32, width: usize)
    ensures
        final(line)@ == old(line)@ + digits(value as int, width as nat),
    decreases width,
{
    let ghost start = line@;
    if width == 0 {
        assert(start + digits(value as int, 0) == start);
    } else {
        push_digits(line, value / 10, width - 1);
        line.push(digit_of(value % 10));
        assert((start + digits(value as int / 10, (width - 1) as nat)).push(
            digit_char(value as int % 10),
        ) == start + digits(value as int, width as nat));
    }
}

fn push_time(line: &mut String, time: &Option<SecondsPastMidnight>)
    ensures
        final(line)@ == old(line)@ + time_field(*time),
{
    let ghost start = line@;
    match time {
        Some(t) => {
            let whole: u32 = t.0 / 3600;
            let hours: u32 = if whole > 99 {
                99
            } else {
                whole
            };
            let minutes: u32 = (t.0 - hours * 3600) / 60;
            push_digits(line, hours, 2);
            push_digits(line, minutes, 2);
            assert(start + digits(hours as int, 2) + digits(minutes as int, 2) == start
                + time_digits(*t));
        },
        None => {
            push_spaces(line, 4);
        },
    }
}

fn push_date(line: &mut String, date: &Date)
    ensures
        final(line)@ == old(line)@ + date_digits(*date),
{
    let ghost start = line@;
    push_digits(line, date.year as u32, 4);
    push_digits(line, date.month as u32, 2);
    push_digits(line, date.day as u32, 2);
    assert(start + digits(date.year as int, 4) + digits(date.month as int, 2) + digits(
        date.day as int,
        2,
    ) == start + date_digits(*date));
}

fn push_status(line: &mut String, status: Status)
    ensures
        final(line)@ == old(line)@.push(status_letter(status)),
{
    match status {
        Status::New => line.push('N'),
        Status::Delete => line.push('D'),
        Status::Revise => line.push('R'),
    }
}

fn push_days(line: &mut String, days: &OperatingDays)
    ensures
        final(line)@ == old(line)@ + day_marks(days@),
{
    let ghost start = line@;
    let mut i: usize = 0;
    assert(start + day_marks(days@).take(0) == start);
    while i < 7
        invariant
            i <= 7,
            line@ == start + day_marks(days@).take(i as int),
        decreases 7 - i,
    {
        if days.0[i] {
            line.push('1');
        } else {
            line.push('0');
        }
        assert((start + day_marks(days@).take(i as int)).push(day_marks(days@)[i as int])
            == start + day_marks(days@).take(i + 1));
        i += 1;
    }
    assert(day_marks(days@).take(7) == day_marks(days@));
}

/// Writes a journey header as a `QS` line.
pub fn encode_header(header: &JourneyHeader) -> (line: String)
    ensures
        line@ == header_line(header@),
{
    let mut line = String::new();
    line.push('Q');
    line.push('S');
    push_status(&mut line, header.status);
    assert(line@ == seq!['Q', 'S', status_letter(header.status)]);
    push_padded(&mut line, header.operator.as_str(), 4);
    push_padded(&mut line, header.unique_journey_identifier.as_str(), 6);
    push_date(&mut line, &header.date_runs_from);
    push_date(&mut line, &header.date_runs_to);
    push_days(&mut line, &header.operating_days);
    push_spaces(&mut line, 2);
    push_padded(&mut line, header.route_number.as_str(), 4);
    push_spaces(&mut line, 6);
    match header.category {
        Category::Passenger => {
            proof {
                reveal_strlit("bus");
                assert("bus"@ =~= seq!['b', 'u', 's']);
            }
            push_padded(&mut line, "bus", 8);
        },
        Category::Other => {
            push_spaces(&mut line, 8);
        },
    }
    line
}

/// Writes a stop of a journey as a `QO`, `QI` or `QT` line.
pub fn encode_stop(stop: &JourneyRecordStop) -> (line: String)
    ensures
        line@ == stop_line(stop@),
{
    let mut line = String::new();
    line.push('Q');
    if stop.is_first_stop {
        line.push('O');
        assert(line@ == seq!['Q', 'O']);
        push_padded(&mut line, stop.atco_code.0.as_str(), 12);
        push_time(&mut line, &stop.departure_time);
    } else if stop.departure_time.is_none() {
        line.push('T');
        assert(line@ == seq!['Q', 'T']);
        push_padded(&mut line, stop.atco_code.0.as_str(), 12);
        push_time(&mut line, &stop.arrival_time);
    } else {
        line.push('I');
        assert(line@ == seq!['Q', 'I']);
        push_padded(&mut line, stop.atco_code.0.as_str(), 12);
        push_time(&mut line, &stop.arrival_time);
        push_time(&mut line, &stop.departure_time);
        let ghost before = line@;
        match stop.activity_flag {
            ActivityFlag::Both => line.push('B'),
            ActivityFlag::PickUpOnly => line.push('P'),
            ActivityFlag::SetDownOnly => line.push('S'),
            ActivityFlag::Neither => line.push('N'),
        }
        assert(line@ == before + seq![activity_letter(stop.activity_flag)]);
    }
    line
}

/// Writes the name of a stop as a `QL` line.
pub fn encode_name(name: &StopName) -> (line: String)
    ensures
        line@ == name_line(name@),
{
    let mut line = String::new();
    line.push('Q');
    line.push('L');
    push_status(&mut line, name.status);
    assert(line@ == seq!['Q', 'L', status_letter(name.status)]);
    push_padded(&mut line, name.atco_code.0.as_str(), 12);
    push_padded(&mut line, name.name.as_str(), 48);
    line
}

/// Writes a record as a line of its type. Text is padded to its columns with
/// spaces; a text that is longer than its columns is written in full.
pub fn encode_record(record: &Record) -> (line: String)
    ensures
        line@ == record_line(record@),
{
    match record {
        Record::JourneyHeader(header) => encode_header(header),
        Record::JourneyRecordStop(stop) => encode_stop(stop),
        Record::StopName(name) => encode_name(name),
    }
}

} // verus!
