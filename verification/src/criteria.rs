//! Judging the stops by how often vehicles depart from them.
//!
//! Four rules are applied to the statistics of a stop, two over the hours from
//! 7 am to 7 pm and two over the hours from 6 am to 10 pm. A rule over *all
//! hours* asks every hour of the range to be frequent; a rule over the
//! *average* asks it of the range as a whole. A rule that the counts do not
//! meet can still be met through the stops called at next: vehicles that leave
//! for the same next stop serve one direction. Where neither holds although
//! many different next stops were seen, the stop is flagged for review.

use crate::atco::{Atco, AtcoMap};
use crate::hour_grouping::{codes_of, statistics, HourlyDepartures, HourlyDeparturesView};
use vstd::prelude::*;

verus! {

/// Departures in an hour from which on the hour is frequent.
pub const FREQUENT_DEPARTURES: u32 = 4;

/// Journey starts in an hour from which on the hour is frequent.
pub const FREQUENT_STARTS: u32 = 2;

/// Departures in an hour towards one next stop from which on that direction
/// is frequent.
pub const FREQUENT_TOWARDS_ONE: usize = 2;

/// Different next stops from which on the statistics of a stop are taken to be
/// ambiguous.
pub const AMBIGUOUS_DIRECTIONS: usize = 3;

/// First hour of the day-time range, 7 am.
pub const DAY_FROM: usize = 7;

/// End of the day-time range, 7 pm.
pub const DAY_TO: usize = 19;

/// First hour of the extended range, 6 am.
pub const EXTENDED_FROM: usize = 6;

/// End of the extended range, 10 pm.
pub const EXTENDED_TO: usize = 22;

/// How often `code` occurs in `codes`.
pub open spec fn occurrences(codes: Seq<Seq<char>>, code: Seq<char>) -> nat
    decreases codes.len(),
{
    if codes.len() == 0 {
        0
    } else if codes.last() == code {
        occurrences(codes.drop_last(), code) + 1
    } else {
        occurrences(codes.drop_last(), code)
    }
}

/// Whether at least three different codes occur in `codes`.
pub open spec fn three_distinct(codes: Seq<Seq<char>>) -> bool {
    exists|i: int, j: int, k: int|
        0 <= i < codes.len() && 0 <= j < codes.len() && 0 <= k < codes.len() && #[trigger] codes[i]
            != #[trigger] codes[j] && codes[i] != #[trigger] codes[k] && codes[j] != codes[k]
}

/// The next stops seen in the hours `from..to`, hour after hour.
pub open spec fn observed(d: HourlyDeparturesView, from: int, to: int) -> Seq<Seq<char>>
    decreases to - from,
{
    if to <= from {
        Seq::empty()
    } else {
        observed(d, from, to - 1) + d.next_stop[to - 1]
    }
}

/// The hour `h` is frequent by its counts.
pub open spec fn frequent_hour(d: HourlyDeparturesView, h: int) -> bool {
    d.hour_counts[h] >= FREQUENT_DEPARTURES || d.hour_counts_journey_starts[h] >= FREQUENT_STARTS
}

/// Every hour of the range is frequent by its counts.
pub open spec fn every_hour_frequent(d: HourlyDeparturesView, from: int, to: int) -> bool {
    forall|h: int| from <= h < to ==> #[trigger] frequent_hour(d, h)
}

/// In every hour of the range, vehicles leave often enough for `code`.
pub open spec fn frequent_towards(
    d: HourlyDeparturesView,
    from: int,
    to: int,
    code: Seq<char>,
) -> bool {
    forall|h: int|
        from <= h < to ==> occurrences(#[trigger] d.next_stop[h], code) >= FREQUENT_TOWARDS_ONE
}

/// There is a next stop for which vehicles leave often enough in every hour
/// of the range.
pub open spec fn frequent_towards_one(d: HourlyDeparturesView, from: int, to: int) -> bool {
    exists|code: Seq<char>| frequent_towards(d, from, to, code)
}

/// The rule over all hours is met: by the counts, or else through one next
/// stop.
pub open spec fn meets_all_hours(d: HourlyDeparturesView, from: int, to: int) -> bool {
    every_hour_frequent(d, from, to) || frequent_towards_one(d, from, to)
}

/// The rule over all hours is not met, but every hour of the range has seen
/// at least three different next stops.
pub open spec fn all_hours_flag(d: HourlyDeparturesView, from: int, to: int) -> bool {
    &&& !meets_all_hours(d, from, to)
    &&& forall|h: int| from <= h < to ==> three_distinct(#[trigger] d.next_stop[h])
}

/// What the hour `h` weighs in the average: its departures, or twice its
/// journey starts where that is more.
pub open spec fn hour_weight(d: HourlyDeparturesView, h: int) -> int {
    if d.hour_counts[h] >= 2 * d.hour_counts_journey_starts[h] {
        d.hour_counts[h]
    } else {
        2 * d.hour_counts_journey_starts[h]
    }
}

/// The weights of the hours `from..to`, summed.
pub open spec fn total_weight(d: HourlyDeparturesView, from: int, to: int) -> int
    decreases to - from,
{
    if to <= from {
        0
    } else {
        total_weight(d, from, to - 1) + hour_weight(d, to - 1)
    }
}

/// Over the range as a whole, vehicles leave often enough for one next stop.
pub open spec fn often_towards_one(d: HourlyDeparturesView, from: int, to: int) -> bool {
    exists|code: Seq<char>|
        occurrences(observed(d, from, to), code) >= FREQUENT_TOWARDS_ONE * (to - from)
}

/// The rule over the average is met: by the counts, or else through one next
/// stop.
pub open spec fn meets_average(d: HourlyDeparturesView, from: int, to: int) -> bool {
    total_weight(d, from, to) >= FREQUENT_DEPARTURES * (to - from) || often_towards_one(
        d,
        from,
        to,
    )
}

/// The rule over the average is not met, but at least three different next
/// stops were seen in the range, on three departures an hour or more.
pub open spec fn average_flag(d: HourlyDeparturesView, from: int, to: int) -> bool {
    &&& !meets_average(d, from, to)
    &&& three_distinct(observed(d, from, to))
    &&& observed(d, from, to).len() >= AMBIGUOUS_DIRECTIONS * (to - from)
}

/// The texts of a list of borrowed identifiers.
pub open spec fn borrowed_codes(codes: Seq<&Atco>) -> Seq<Seq<char>> {
    Seq::new(codes.len(), |i: int| codes[i]@)
}

/// A code that occurs in a list stands at one of its places.
proof fn lemma_occurs_at(codes: Seq<Seq<char>>, code: Seq<char>)
    requires
        occurrences(codes, code) > 0,
    ensures
        exists|i: int| 0 <= i < codes.len() && #[trigger] codes[i] == code,
    decreases codes.len(),
{
    if codes.last() == code {
        assert(codes[codes.len() - 1] == code);
    } else {
        lemma_occurrences_bound(codes.drop_last(), code);
        lemma_occurs_at(codes.drop_last(), code);
        let i = choose|i: int| 0 <= i < codes.drop_last().len() && #[trigger] codes.drop_last()[i] == code;
        assert(codes[i] == code);
    }
}

/// No code occurs more often than the list is long.
proof fn lemma_occurrences_bound(codes: Seq<Seq<char>>, code: Seq<char>)
    ensures
        occurrences(codes, code) <= codes.len(),
    decreases codes.len(),
{
    if codes.len() > 0 {
        lemma_occurrences_bound(codes.drop_last(), code);
    }
}

/// A single hour, taken as a range, has seen the next stops of that hour.
proof fn lemma_observed_one_hour(d: HourlyDeparturesView, h: int)
    ensures
        observed(d, h, h + 1) == d.next_stop[h],
{
    assert(observed(d, h, h) == Seq::<Seq<char>>::empty());
    assert(observed(d, h, h + 1) == observed(d, h, h) + d.next_stop[h]);
    assert(Seq::<Seq<char>>::empty() + d.next_stop[h] == d.next_stop[h]);
}

/// How often `code` is among `codes`, counted no further than `cap`.
pub fn count_up_to(codes: &Vec<&Atco>, code: &Atco, cap: usize) -> (n: usize)
    ensures
        n == if occurrences(borrowed_codes(codes@), code@) <= cap {
            occurrences(borrowed_codes(codes@), code@)
        } else {
            cap as nat
        },
{
    let ghost all = borrowed_codes(codes@);
    let mut n: usize = 0;
    let mut i: usize = 0;
    proof {
        assert(all.take(0) == Seq::<Seq<char>>::empty());
    }
    while i < codes.len() && n < cap
        invariant
            i <= codes@.len(),
            all == borrowed_codes(codes@),
            n <= cap,
            n == occurrences(all.take(i as int), code@),
        decreases codes@.len() - i,
    {
        proof {
            assert(all.take(i + 1).drop_last() == all.take(i as int));
            assert(all.take(i + 1).last() == codes@[i as int]@);
        }
        if codes[i].same_as(code) {
            n += 1;
        }
        i += 1;
    }
    proof {
        if i < codes@.len() {
            lemma_occurrences_grow(all, code@, i as int);
        } else {
            assert(all.take(i as int) == all);
        }
    }
    n
}

/// A longer part of a list holds a code at least as often as a shorter one.
proof fn lemma_occurrences_grow(codes: Seq<Seq<char>>, code: Seq<char>, n: int)
    requires
        0 <= n <= codes.len(),
    ensures
        occurrences(codes.take(n), code) <= occurrences(codes, code),
    decreases codes.len() - n,
{
    if n < codes.len() {
        lemma_occurrences_grow(codes, code, n + 1);
        assert(codes.take(n + 1).drop_last() == codes.take(n));
    } else {
        assert(codes.take(n) == codes);
    }
}

/// Whether some code is among `codes` at least `times` times.
pub fn has_repeated(codes: &Vec<&Atco>, times: usize) -> (found: bool)
    requires
        times >= 1,
    ensures
        found == exists|code: Seq<char>| occurrences(borrowed_codes(codes@), code) >= times,
{
    let ghost all = borrowed_codes(codes@);
    let mut i: usize = 0;
    while i < codes.len()
        invariant
            i <= codes@.len(),
            times >= 1,
            all == borrowed_codes(codes@),
            forall|j: int| 0 <= j < i ==> occurrences(all, #[trigger] all[j]) < times,
        decreases codes@.len() - i,
    {
        if count_up_to(codes, codes[i], times) >= times {
            assert(occurrences(all, all[i as int]) >= times);
            return true;
        }
        i += 1;
    }
    proof {
        assert forall|code: Seq<char>| occurrences(all, code) < times by {
            if occurrences(all, code) >= times {
                lemma_occurs_at(all, code);
                let j = choose|j: int| 0 <= j < all.len() && #[trigger] all[j] == code;
                assert(occurrences(all, all[j]) < times);
            }
        }
    }
    false
}

/// The first place from `from` on whose code is neither `a` nor `b`.
fn first_other(codes: &Vec<&Atco>, from: usize, a: &Atco, b: &Atco) -> (found: Option<usize>)
    requires
        from <= codes@.len(),
    ensures
        match found {
            Some(at) => from <= at < codes@.len() && codes@[at as int]@ != a@ && codes@[at as int]@
                != b@,
            None => forall|j: int|
                from <= j < codes@.len() ==> (#[trigger] codes@[j])@ == a@ || codes@[j]@ == b@,
        },
{
    let mut i: usize = from;
    while i < codes.len()
        invariant
            from <= i <= codes@.len(),
            forall|j: int| from <= j < i ==> (#[trigger] codes@[j])@ == a@ || codes@[j]@ == b@,
        decreases codes@.len() - i,
    {
        if !codes[i].same_as(a) && !codes[i].same_as(b) {
            return Some(i);
        }
        i += 1;
    }
    None
}

/// Whether at least three different codes are among `codes`.
pub fn has_three_distinct(codes: &Vec<&Atco>) -> (found: bool)
    ensures
        found == three_distinct(borrowed_codes(codes@)),
{
    let ghost all = borrowed_codes(codes@);
    if codes.len() == 0 {
        return false;
    }
    let first = codes[0];
    let second = match first_other(codes, 0, first, first) {
        Some(at) => at,
        None => {
            proof {
                assert forall|i: int, j: int, k: int|
                    0 <= i < all.len() && 0 <= j < all.len() && 0 <= k < all.len() implies !(
                #[trigger] all[i] != #[trigger] all[j] && all[i] != #[trigger] all[k] && all[j]
                    != all[k]) by {
                    assert(codes@[i]@ == first@);
                    assert(codes@[j]@ == first@);
                }
            }
            return false;
        },
    };
    match first_other(codes, 0, first, codes[second]) {
        Some(third) => {
            proof {
                assert(all[0] != all[second as int] && all[0] != all[third as int]
                    && all[second as int] != all[third as int]);
            }
            true
        },
        None => {
            proof {
                let other = codes@[second as int]@;
                assert forall|i: int, j: int, k: int|
                    0 <= i < all.len() && 0 <= j < all.len() && 0 <= k < all.len() implies !(
                #[trigger] all[i] != #[trigger] all[j] && all[i] != #[trigger] all[k] && all[j]
                    != all[k]) by {
                    assert(codes@[i]@ == first@ || codes@[i]@ == other);
                    assert(codes@[j]@ == first@ || codes@[j]@ == other);
                    assert(codes@[k]@ == first@ || codes@[k]@ == other);
                }
            }
            false
        },
    }
}

/// The next stops seen in the hours `from..to`, hour after hour.
pub fn next_stops_seen(departures: &HourlyDepartures, from: usize, to: usize) -> (seen: Vec<&Atco>)
    requires
        from <= to <= 24,
    ensures
        borrowed_codes(seen@) == observed(departures@, from as int, to as int),
{
    let mut seen: Vec<&Atco> = Vec::new();
    let mut h: usize = from;
    proof {
        assert(borrowed_codes(seen@) == observed(departures@, from as int, from as int));
    }
    while h < to
        invariant
            from <= h <= to <= 24,
            borrowed_codes(seen@) == observed(departures@, from as int, h as int),
        decreases to - h,
    {
        let hour = &departures.next_stop[h];
        let ghost before = borrowed_codes(seen@);
        let mut i: usize = 0;
        proof {
            assert(departures@.next_stop[h as int].take(0) == Seq::<Seq<char>>::empty());
            assert(before + Seq::<Seq<char>>::empty() == before);
        }
        while i < hour.len()
            invariant
                h < to <= 24,
                i <= hour@.len(),
                hour@ == departures.next_stop@[h as int]@,
                borrowed_codes(seen@) == before + departures@.next_stop[h as int].take(i as int),
            decreases hour@.len() - i,
        {
            let ghost sofar = borrowed_codes(seen@);
            seen.push(&hour[i]);
            proof {
                let codes = departures@.next_stop[h as int];
                assert(codes == codes_of(hour@));
                assert(codes.take(i + 1) == codes.take(i as int).push(hour@[i as int]@));
                assert(borrowed_codes(seen@) == sofar.push(hour@[i as int]@));
                assert(before + codes.take(i as int).push(hour@[i as int]@) == (before + codes.take(
                    i as int,
                )).push(hour@[i as int]@));
            }
            i += 1;
        }
        proof {
            let codes = departures@.next_stop[h as int];
            assert(codes.take(hour@.len() as int) == codes);
        }
        h += 1;
    }
    seen
}

/// A code occurs in two lists, one after the other, as often as in both.
pub proof fn lemma_occurrences_concat(a: Seq<Seq<char>>, b: Seq<Seq<char>>, code: Seq<char>)
    ensures
        occurrences(a + b, code) == occurrences(a, code) + occurrences(b, code),
    decreases b.len(),
{
    if b.len() == 0 {
        assert(a + b == a);
    } else {
        lemma_occurrences_concat(a, b.drop_last(), code);
        assert((a + b).drop_last() == a + b.drop_last());
        assert((a + b).last() == b.last());
    }
}

/// Hours that are each frequent by their counts weigh four or more each.
proof fn lemma_frequent_hours_weigh(d: HourlyDeparturesView, from: int, to: int)
    requires
        from <= to,
        every_hour_frequent(d, from, to),
    ensures
        total_weight(d, from, to) >= FREQUENT_DEPARTURES * (to - from),
    decreases to - from,
{
    if from < to {
        assert(frequent_hour(d, to - 1));
        assert forall|h: int| from <= h < to - 1 implies #[trigger] frequent_hour(d, h) by {}
        lemma_frequent_hours_weigh(d, from, to - 1);
    }
}

/// A next stop that is frequent in every hour is frequent over the range.
proof fn lemma_frequent_towards_adds_up(
    d: HourlyDeparturesView,
    from: int,
    to: int,
    code: Seq<char>,
)
    requires
        from <= to,
        frequent_towards(d, from, to, code),
    ensures
        occurrences(observed(d, from, to), code) >= FREQUENT_TOWARDS_ONE * (to - from),
    decreases to - from,
{
    if from < to {
        assert(occurrences(d.next_stop[to - 1], code) >= FREQUENT_TOWARDS_ONE);
        assert forall|h: int| from <= h < to - 1 implies occurrences(
            #[trigger] d.next_stop[h],
            code,
        ) >= FREQUENT_TOWARDS_ONE by {}
        lemma_frequent_towards_adds_up(d, from, to - 1, code);
        lemma_occurrences_concat(observed(d, from, to - 1), d.next_stop[to - 1], code);
    }
}

/// Whatever meets the rule over all hours of a range meets the rule over the
/// average of that range. The converse does not hold: one busy hour can lift
/// the average of a range in which other hours have no departure.
pub proof fn lemma_all_hours_imply_average(d: HourlyDeparturesView, from: int, to: int)
    requires
        from <= to,
        meets_all_hours(d, from, to),
    ensures
        meets_average(d, from, to),
{
    if every_hour_frequent(d, from, to) {
        lemma_frequent_hours_weigh(d, from, to);
    } else {
        let code = choose|code: Seq<char>| frequent_towards(d, from, to, code);
        lemma_frequent_towards_adds_up(d, from, to, code);
    }
}

/// What a rule says of a stop.
#[derive(Clone, Copy, Debug, PartialEq, Eq, Structural)]
pub struct RuleOutcome {
    /// The rule is met.
    pub met: bool,
    /// The rule is not met, and the next stops seen are too many to trust that.
    pub flagged: bool,
}

/// Whether every hour of the range is frequent by its counts.
pub fn frequent_in_every_hour(departures: &HourlyDepartures, from: usize, to: usize) -> (b: bool)
    requires
        from <= to <= 24,
    ensures
        b == every_hour_frequent(departures@, from as int, to as int),
{
    let mut h: usize = from;
    while h < to
        invariant
            from <= h <= to <= 24,
            forall|g: int| from <= g < h ==> #[trigger] frequent_hour(departures@, g),
        decreases to - h,
    {
        if departures.hour_counts[h] < FREQUENT_DEPARTURES
            && departures.hour_counts_journey_starts[h] < FREQUENT_STARTS {
            assert(!frequent_hour(departures@, h as int));
            return false;
        }
        assert(frequent_hour(departures@, h as int));
        h += 1;
    }
    true
}

/// The next stops of each hour of the range, one list per hour.
fn next_stops_by_hour(departures: &HourlyDepartures, from: usize, to: usize) -> (hours: Vec<
    Vec<&Atco>,
>)
    requires
        from <= to <= 24,
    ensures
        hours@.len() == to - from,
        forall|k: int|
            0 <= k < to - from ==> borrowed_codes(#[trigger] hours@[k]@)
                == departures@.next_stop[from + k],
{
    let mut hours: Vec<Vec<&Atco>> = Vec::new();
    let mut h: usize = from;
    while h < to
        invariant
            from <= h <= to <= 24,
            hours@.len() == h - from,
            forall|k: int|
                0 <= k < h - from ==> borrowed_codes(#[trigger] hours@[k]@)
                    == departures@.next_stop[from + k],
        decreases to - h,
    {
        let seen = next_stops_seen(departures, h, h + 1);
        proof {
            lemma_observed_one_hour(departures@, h as int);
        }
        hours.push(seen);
        h += 1;
    }
    hours
}

/// Applies the rule over all hours to the hours `from..to`.
pub fn all_hours_rule(departures: &HourlyDepartures, from: usize, to: usize) -> (outcome: RuleOutcome)
    requires
        from < to <= 24,
    ensures
        outcome.met == meets_all_hours(departures@, from as int, to as int),
        outcome.flagged == all_hours_flag(departures@, from as int, to as int),
{
    if frequent_in_every_hour(departures, from, to) {
        return RuleOutcome { met: true, flagged: false };
    }
    let ghost d = departures@;
    let hours = next_stops_by_hour(departures, from, to);
    let width = to - from;
    let mut i: usize = 0;
    proof {
        assert(borrowed_codes(hours@[0]@) == d.next_stop[from as int]);
    }
    while i < hours[0].len()
        invariant
            from < to <= 24,
            width == to - from,
            d == departures@,
            hours@.len() == width,
            i <= hours@[0]@.len(),
            forall|k: int|
                0 <= k < width ==> borrowed_codes(#[trigger] hours@[k]@) == d.next_stop[from + k],
            forall|j: int|
                0 <= j < i ==> !frequent_towards(
                    d,
                    from as int,
                    to as int,
                    #[trigger] d.next_stop[from as int][j],
                ),
        decreases hours@[0]@.len() - i,
    {
        let candidate = hours[0][i];
        proof {
            assert(borrowed_codes(hours@[0]@)[i as int] == candidate@);
            assert(d.next_stop[from as int][i as int] == candidate@);
        }
        let mut k: usize = 0;
        let mut every_hour = true;
        while k < width && every_hour
            invariant
                from < to <= 24,
                width == to - from,
                d == departures@,
                hours@.len() == width,
                k <= width,
                forall|k: int|
                    0 <= k < width ==> borrowed_codes(#[trigger] hours@[k]@)
                        == d.next_stop[from + k],
                every_hour ==> forall|h: int|
                    from <= h < from + k ==> occurrences(#[trigger] d.next_stop[h], candidate@)
                        >= FREQUENT_TOWARDS_ONE,
                !every_hour ==> !frequent_towards(d, from as int, to as int, candidate@),
            decreases width - k, every_hour as int,
        {
            proof {
                assert(borrowed_codes(hours@[k as int]@) == d.next_stop[from + k]);
            }
            if count_up_to(&hours[k], candidate, FREQUENT_TOWARDS_ONE) < FREQUENT_TOWARDS_ONE {
                every_hour = false;
                proof {
                    assert(occurrences(d.next_stop[from + k], candidate@) < FREQUENT_TOWARDS_ONE);
                }
            } else {
                k += 1;
            }
        }
        if every_hour {
            proof {
                assert(frequent_towards(d, from as int, to as int, candidate@));
            }
            return RuleOutcome { met: true, flagged: false };
        }
        i += 1;
    }
    proof {
        assert forall|code: Seq<char>| !frequent_towards(d, from as int, to as int, code) by {
            if frequent_towards(d, from as int, to as int, code) {
                assert(occurrences(d.next_stop[from as int], code) >= FREQUENT_TOWARDS_ONE);
                lemma_occurs_at(d.next_stop[from as int], code);
                let j = choose|j: int|
                    0 <= j < d.next_stop[from as int].len() && #[trigger] d.next_stop[from as int][j]
                        == code;
                assert(!frequent_towards(d, from as int, to as int, d.next_stop[from as int][j]));
            }
        }
        assert(d.next_stop[from as int].len() == hours@[0]@.len());
        assert(!meets_all_hours(d, from as int, to as int));
    }
    let mut k: usize = 0;
    while k < width
        invariant
            from < to <= 24,
            width == to - from,
            d == departures@,
            !meets_all_hours(d, from as int, to as int),
            hours@.len() == width,
            k <= width,
            forall|k: int|
                0 <= k < width ==> borrowed_codes(#[trigger] hours@[k]@) == d.next_stop[from + k],
            forall|h: int| from <= h < from + k ==> three_distinct(#[trigger] d.next_stop[h]),
        decreases width - k,
    {
        proof {
            assert(borrowed_codes(hours@[k as int]@) == d.next_stop[from + k]);
        }
        if !has_three_distinct(&hours[k]) {
            proof {
                assert(!three_distinct(d.next_stop[from + k]));
            }
            return RuleOutcome { met: false, flagged: false };
        }
        k += 1;
    }
    RuleOutcome { met: false, flagged: true }
}

/// The weights of the hours `from..to`, summed.
pub fn weigh(departures: &HourlyDepartures, from: usize, to: usize) -> (total: u64)
    requires
        from <= to <= 24,
    ensures
        total == total_weight(departures@, from as int, to as int),
{
    let mut total: u64 = 0;
    let mut h: usize = from;
    while h < to
        invariant
            from <= h <= to <= 24,
            total == total_weight(departures@, from as int, h as int),
            total <= (h - from) * 0x2_0000_0000,
        decreases to - h,
    {
        let departing: u64 = departures.hour_counts[h] as u64;
        let starting: u64 = 2 * (departures.hour_counts_journey_starts[h] as u64);
        let weight: u64 = if departing >= starting {
            departing
        } else {
            starting
        };
        assert(weight == hour_weight(departures@, h as int));
        total = total + weight;
        h += 1;
    }
    total
}

/// Applies the rule over the average to the hours `from..to`.
pub fn average_rule(departures: &HourlyDepartures, from: usize, to: usize) -> (outcome: RuleOutcome)
    requires
        from < to <= 24,
    ensures
        outcome.met == meets_average(departures@, from as int, to as int),
        outcome.flagged == average_flag(departures@, from as int, to as int),
{
    let width = to - from;
    if weigh(departures, from, to) >= (FREQUENT_DEPARTURES as u64) * (width as u64) {
        return RuleOutcome { met: true, flagged: false };
    }
    let seen = next_stops_seen(departures, from, to);
    if has_repeated(&seen, FREQUENT_TOWARDS_ONE * width) {
        return RuleOutcome { met: true, flagged: false };
    }
    let flagged = has_three_distinct(&seen) && seen.len() >= AMBIGUOUS_DIRECTIONS * width;
    RuleOutcome { met: false, flagged }
}

/// Whether a stop is frequent in every hour from 7 am to 7 pm.
pub fn does_station_meet_all_7_7(departures: &HourlyDepartures) -> (met: bool)
    ensures
        met == meets_all_hours(departures@, DAY_FROM as int, DAY_TO as int),
{
    all_hours_rule(departures, DAY_FROM, DAY_TO).met
}

/// Whether a stop is frequent in every hour from 6 am to 10 pm.
pub fn does_station_meet_all_6_10(departures: &HourlyDepartures) -> (met: bool)
    ensures
        met == meets_all_hours(departures@, EXTENDED_FROM as int, EXTENDED_TO as int),
{
    all_hours_rule(departures, EXTENDED_FROM, EXTENDED_TO).met
}

/// Whether a stop is frequent on the average of the hours from 7 am to 7 pm.
pub fn does_station_meet_avg_7_7(departures: &HourlyDepartures) -> (met: bool)
    ensures
        met == meets_average(departures@, DAY_FROM as int, DAY_TO as int),
{
    average_rule(departures, DAY_FROM, DAY_TO).met
}

/// Whether a stop is frequent on the average of the hours from 6 am to 10 pm.
pub fn does_station_meet_avg_6_10(departures: &HourlyDepartures) -> (met: bool)
    ensures
        met == meets_average(departures@, EXTENDED_FROM as int, EXTENDED_TO as int),
{
    average_rule(departures, EXTENDED_FROM, EXTENDED_TO).met
}

/// The verdicts on one stop.
#[derive(Debug, PartialEq)]
pub struct CriteriaResults {
    /// The stop's canonical code.
    pub atco_code: Atco,
    pub hour_counts: [u32; 24],
    pub hour_counts_journey_starts: [u32; 24],
    pub all_7_7: bool,
    pub all_6_10: bool,
    pub avg_7_7: bool,
    pub avg_6_10: bool,
    /// One of the four rules flagged the stop.
    pub flagged_for_review: bool,
    /// The next stops of every hour, for a stop that is flagged; nothing for
    /// any other stop.
    pub next_stop: Option<[Vec<Atco>; 24]>,
}

/// The verdicts on one stop, as mathematical values.
pub struct CriteriaResultsView {
    pub atco_code: Seq<char>,
    pub hour_counts: Seq<int>,
    pub hour_counts_journey_starts: Seq<int>,
    pub all_7_7: bool,
    pub all_6_10: bool,
    pub avg_7_7: bool,
    pub avg_6_10: bool,
    pub flagged_for_review: bool,
    pub next_stop: Option<Seq<Seq<Seq<char>>>>,
}

impl View for CriteriaResults {
    type V = CriteriaResultsView;

    open spec fn view(&self) -> CriteriaResultsView {
        CriteriaResultsView {
            atco_code: self.atco_code@,
            hour_counts: Seq::new(24, |h: int| self.hour_counts@[h] as int),
            hour_counts_journey_starts: Seq::new(
                24,
                |h: int| self.hour_counts_journey_starts@[h] as int,
            ),
            all_7_7: self.all_7_7,
            all_6_10: self.all_6_10,
            avg_7_7: self.avg_7_7,
            avg_6_10: self.avg_6_10,
            flagged_for_review: self.flagged_for_review,
            next_stop: match self.next_stop {
                Some(table) => Some(Seq::new(24, |h: int| codes_of(table@[h]@))),
                None => None,
            },
        }
    }
}

/// Whether one of the four rules flags the stop.
pub open spec fn flagged(d: HourlyDeparturesView) -> bool {
    ||| all_hours_flag(d, DAY_FROM as int, DAY_TO as int)
    ||| all_hours_flag(d, EXTENDED_FROM as int, EXTENDED_TO as int)
    ||| average_flag(d, DAY_FROM as int, DAY_TO as int)
    ||| average_flag(d, EXTENDED_FROM as int, EXTENDED_TO as int)
}

/// The verdicts on the stop `code` whose statistics are `d`.
pub open spec fn criteria_of(code: Seq<char>, d: HourlyDeparturesView) -> CriteriaResultsView {
    CriteriaResultsView {
        atco_code: code,
        hour_counts: d.hour_counts,
        hour_counts_journey_starts: d.hour_counts_journey_starts,
        all_7_7: meets_all_hours(d, DAY_FROM as int, DAY_TO as int),
        all_6_10: meets_all_hours(d, EXTENDED_FROM as int, EXTENDED_TO as int),
        avg_7_7: meets_average(d, DAY_FROM as int, DAY_TO as int),
        avg_6_10: meets_average(d, EXTENDED_FROM as int, EXTENDED_TO as int),
        flagged_for_review: flagged(d),
        next_stop: if flagged(d) {
            Some(d.next_stop)
        } else {
            None
        },
    }
}

/// A copy of a list of identifiers.
pub fn copy_codes(codes: &Vec<Atco>) -> (copy: Vec<Atco>)
    ensures
        codes_of(copy@) == codes_of(codes@),
{
    let mut copy: Vec<Atco> = Vec::new();
    let mut i: usize = 0;
    while i < codes.len()
        invariant
            i <= codes@.len(),
            copy@.len() == i,
            forall|j: int| 0 <= j < i ==> (#[trigger] copy@[j])@ == codes@[j]@,
        decreases codes@.len() - i,
    {
        copy.push(codes[i].clone());
        i += 1;
    }
    assert(codes_of(copy@) =~= codes_of(codes@));
    copy
}

/// A copy of the next stops of every hour.
pub fn copy_next_stops(table: &[Vec<Atco>; 24]) -> (copy: [Vec<Atco>; 24])
    ensures
        forall|h: int| 0 <= h < 24 ==> codes_of(#[trigger] copy@[h]@) == codes_of(table@[h]@),
{
    [
        copy_codes(&table[0]),
        copy_codes(&table[1]),
        copy_codes(&table[2]),
        copy_codes(&table[3]),
        copy_codes(&table[4]),
        copy_codes(&table[5]),
        copy_codes(&table[6]),
        copy_codes(&table[7]),
        copy_codes(&table[8]),
        copy_codes(&table[9]),
        copy_codes(&table[10]),
        copy_codes(&table[11]),
        copy_codes(&table[12]),
        copy_codes(&table[13]),
        copy_codes(&table[14]),
        copy_codes(&table[15]),
        copy_codes(&table[16]),
        copy_codes(&table[17]),
        copy_codes(&table[18]),
        copy_codes(&table[19]),
        copy_codes(&table[20]),
        copy_codes(&table[21]),
        copy_codes(&table[22]),
        copy_codes(&table[23]),
    ]
}

/// Judges one stop by its statistics.
pub fn evaluate_stop(atco_code: &Atco, departures: &HourlyDepartures) -> (results: CriteriaResults)
    ensures
        results@ == criteria_of(atco_code@, departures@),
{
    let all_7_7 = all_hours_rule(departures, DAY_FROM, DAY_TO);
    let all_6_10 = all_hours_rule(departures, EXTENDED_FROM, EXTENDED_TO);
    let avg_7_7 = average_rule(departures, DAY_FROM, DAY_TO);
    let avg_6_10 = average_rule(departures, EXTENDED_FROM, EXTENDED_TO);
    let flagged_for_review = all_7_7.flagged || all_6_10.flagged || avg_7_7.flagged
        || avg_6_10.flagged;
    let next_stop = if flagged_for_review {
        Some(copy_next_stops(&departures.next_stop))
    } else {
        None
    };
    let results = CriteriaResults {
        atco_code: atco_code.clone(),
        hour_counts: departures.hour_counts,
        hour_counts_journey_starts: departures.hour_counts_journey_starts,
        all_7_7: all_7_7.met,
        all_6_10: all_6_10.met,
        avg_7_7: avg_7_7.met,
        avg_6_10: avg_6_10.met,
        flagged_for_review,
        next_stop,
    };
    proof {
        let want = criteria_of(atco_code@, departures@);
        assert(results@.hour_counts =~= want.hour_counts);
        assert(results@.hour_counts_journey_starts =~= want.hour_counts_journey_starts);
        if flagged_for_review {
            assert(results@.next_stop->0 =~= departures@.next_stop);
        }
    }
    results
}

/// The verdicts that a table of results holds.
pub open spec fn verdicts(table: AtcoMap<CriteriaResults>) -> Map<Seq<char>, CriteriaResultsView> {
    Map::new(|code: Seq<char>| table@.contains_key(code), |code: Seq<char>| table@[code]@)
}

/// Judges every stop by its statistics, each stop on its own: the result holds
/// the stops of `departures`, in their order, each with its verdicts.
pub fn evaluate_criteria(departures: &AtcoMap<HourlyDepartures>) -> (results: AtcoMap<
    CriteriaResults,
>)
    requires
        departures.wf(),
    ensures
        results.wf(),
        results.codes() == departures.codes(),
        verdicts(results).dom() == statistics(*departures).dom(),
        forall|code: Seq<char>| #[trigger]
            verdicts(results).contains_key(code) ==> verdicts(results)[code] == criteria_of(
                code,
                statistics(*departures)[code],
            ),
{
    let mut results: AtcoMap<CriteriaResults> = AtcoMap::new();
    let n = departures.len();
    let mut i: usize = 0;
    while i < n
        invariant
            i <= n,
            n == departures.codes().len(),
            departures.wf(),
            results.wf(),
            results.codes() == departures.codes().take(i as int),
            forall|j: int|
                0 <= j < i ==> (#[trigger] results.entries()[j])@ == criteria_of(
                    departures.codes()[j],
                    departures.entries()[j]@,
                ),
        decreases n - i,
    {
        let atco_code = departures.key_at(i);
        let stop = evaluate_stop(atco_code, departures.value_at(i));
        proof {
            if results@.contains_key(atco_code@) {
                results.lemma_contained(atco_code@);
                let p = results.position_of(atco_code@);
                assert(departures.codes()[p] == departures.codes()[i as int]);
            }
            assert(departures.codes().take(i + 1) == departures.codes().take(i as int).push(
                atco_code@,
            ));
        }
        results.push_new(atco_code.clone(), stop);
        i += 1;
    }
    proof {
        assert(departures.codes().take(n as int) == departures.codes());
        assert forall|code: Seq<char>| #[trigger] verdicts(results).contains_key(code) implies verdicts(
            results,
        )[code] == criteria_of(code, statistics(*departures)[code]) by {
            results.lemma_contained(code);
            let p = results.position_of(code);
            departures.lemma_position(p);
        }
        assert(verdicts(results).dom() =~= statistics(*departures).dom());
    }
    results
}

} // verus!
