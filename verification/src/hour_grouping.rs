//! Rebuilding journeys from the stream of records and counting, for every
//! stop, the departures of each hour of the day.

use crate::atco::{Atco, AtcoMap};
use crate::records::{
    date_le, day_number, record_views, ActivityFlag, Category, Date, Day, JourneyHeader,
    JourneyHeaderView, JourneyRecordStopView, Record, RecordView, SecondsPastMidnight, Status,
};
use vstd::prelude::*;

verus! {

/// The hour of the day in which a time falls: the whole hours that have passed
/// since midnight, and 23 for every time after the end of the day.
pub open spec fn hour_of(seconds: int) -> int {
    if seconds / 3600 >= 23 {
        23
    } else {
        seconds / 3600
    }
}

/// The hour of the day in which a time falls.
pub fn hour_bucket(seconds: u32) -> (hour: usize)
    ensures
        hour == hour_of(seconds as int),
        hour < 24,
{
    let whole: u32 = seconds / 3600;
    if whole >= 23 {
        23
    } else {
        whole as usize
    }
}

/// A stop of the journey that is being rebuilt, under its canonical code.
#[derive(Clone, Debug, PartialEq)]
pub struct TripStop {
    pub atco_code: Atco,
    pub activity_flag: ActivityFlag,
    pub departure_time: Option<SecondsPastMidnight>,
    pub is_first_stop: bool,
}

/// A stop of a journey, as mathematical values.
pub struct TripStopView {
    pub atco_code: Seq<char>,
    pub activity_flag: ActivityFlag,
    pub departure_time: Option<SecondsPastMidnight>,
    pub is_first_stop: bool,
}

impl View for TripStop {
    type V = TripStopView;

    open spec fn view(&self) -> TripStopView {
        TripStopView {
            atco_code: self.atco_code@,
            activity_flag: self.activity_flag,
            departure_time: self.departure_time,
            is_first_stop: self.is_first_stop,
        }
    }
}

/// The views of a list of stops.
pub open spec fn trip_views(stops: Seq<TripStop>) -> Seq<TripStopView> {
    Seq::new(stops.len(), |i: int| stops[i]@)
}

/// The texts of a list of identifiers.
pub open spec fn codes_of(stops: Seq<Atco>) -> Seq<Seq<char>> {
    Seq::new(stops.len(), |i: int| stops[i]@)
}

/// What is known of the departures from one stop: for each hour of the day
/// their number, the number of those with which a journey starts, and the
/// stops that the departing vehicles call at next, in the order in which the
/// departures were counted.
#[derive(Debug, PartialEq)]
pub struct HourlyDepartures {
    pub hour_counts: [u32; 24],
    pub hour_counts_journey_starts: [u32; 24],
    pub next_stop: [Vec<Atco>; 24],
}

/// The statistics of one stop, as mathematical values: 24 counters of
/// departures, 24 counters of journey starts, 24 lists of next stops.
pub struct HourlyDeparturesView {
    pub hour_counts: Seq<int>,
    pub hour_counts_journey_starts: Seq<int>,
    pub next_stop: Seq<Seq<Seq<char>>>,
}

impl View for HourlyDepartures {
    type V = HourlyDeparturesView;

    open spec fn view(&self) -> HourlyDeparturesView {
        HourlyDeparturesView {
            hour_counts: Seq::new(24, |h: int| self.hour_counts@[h] as int),
            hour_counts_journey_starts: Seq::new(
                24,
                |h: int| self.hour_counts_journey_starts@[h] as int,
            ),
            next_stop: Seq::new(24, |h: int| codes_of(self.next_stop@[h]@)),
        }
    }
}

impl HourlyDeparturesView {
    /// For every hour, no more journeys start than vehicles depart.
    pub open spec fn consistent(self) -> bool {
        &&& self.hour_counts.len() == 24
        &&& self.hour_counts_journey_starts.len() == 24
        &&& self.next_stop.len() == 24
        &&& forall|h: int|
            0 <= h < 24 ==> 0 <= #[trigger] self.hour_counts_journey_starts[h]
                <= self.hour_counts[h]
    }

    /// No counter exceeds `limit`.
    pub open spec fn within(self, limit: int) -> bool {
        forall|h: int|
            0 <= h < 24 ==> #[trigger] self.hour_counts[h] <= limit
                && self.hour_counts_journey_starts[h] <= limit
    }
}

/// The statistics of a stop from which nothing has departed.
pub open spec fn no_departures() -> HourlyDeparturesView {
    HourlyDeparturesView {
        hour_counts: Seq::new(24, |h: int| 0int),
        hour_counts_journey_starts: Seq::new(24, |h: int| 0int),
        next_stop: Seq::new(24, |h: int| Seq::<Seq<char>>::empty()),
    }
}

/// The statistics of a stop from which nothing has departed.
pub fn empty_hour_counts() -> (departures: HourlyDepartures)
    ensures
        departures@ == no_departures(),
{
    let departures = HourlyDepartures {
        hour_counts: [0;24],
        hour_counts_journey_starts: [0;24],
        next_stop: [
            Vec::new(),
            Vec::new(),
            Vec::new(),
            Vec::new(),
            Vec::new(),
            Vec::new(),
            Vec::new(),
            Vec::new(),
            Vec::new(),
            Vec::new(),
            Vec::new(),
            Vec::new(),
            Vec::new(),
            Vec::new(),
            Vec::new(),
            Vec::new(),
            Vec::new(),
            Vec::new(),
            Vec::new(),
            Vec::new(),
            Vec::new(),
            Vec::new(),
            Vec::new(),
            Vec::new(),
        ],
    };
    assert(departures@.hour_counts =~= no_departures().hour_counts);
    assert(departures@.hour_counts_journey_starts =~= no_departures().hour_counts_journey_starts);
    assert(departures@.next_stop =~= no_departures().next_stop) by {
        assert forall|h: int| 0 <= h < 24 implies #[trigger] departures@.next_stop[h]
            =~= Seq::<Seq<char>>::empty() by {}
    }
    departures
}

/// One departure of a vehicle from a stop.
pub struct Departure {
    /// The stop, by its canonical code.
    pub stop: Seq<char>,
    /// The hour of the day, from 0 to 23.
    pub hour: int,
    /// Whether the journey starts with this departure.
    pub starts_journey: bool,
    /// The stop at which the vehicle calls next, if the journey goes on.
    pub next: Option<Seq<char>>,
}

/// The statistics of a stop after one more departure from it.
pub open spec fn with_departure(before: HourlyDeparturesView, d: Departure) -> HourlyDeparturesView {
    HourlyDeparturesView {
        hour_counts: before.hour_counts.update(d.hour, before.hour_counts[d.hour] + 1),
        hour_counts_journey_starts: if d.starts_journey {
            before.hour_counts_journey_starts.update(
                d.hour,
                before.hour_counts_journey_starts[d.hour] + 1,
            )
        } else {
            before.hour_counts_journey_starts
        },
        next_stop: match d.next {
            Some(code) => before.next_stop.update(d.hour, before.next_stop[d.hour].push(code)),
            None => before.next_stop,
        },
    }
}

/// The statistics of all stops after one more departure: the stop of the
/// departure gets its statistics on its first departure.
pub open spec fn counted(
    before: Map<Seq<char>, HourlyDeparturesView>,
    d: Departure,
) -> Map<Seq<char>, HourlyDeparturesView> {
    before.insert(
        d.stop,
        with_departure(
            if before.contains_key(d.stop) {
                before[d.stop]
            } else {
                no_departures()
            },
            d,
        ),
    )
}

/// The statistics `start` after the departures `added`, counted in order.
pub open spec fn tally_onto(
    start: Map<Seq<char>, HourlyDeparturesView>,
    added: Seq<Departure>,
) -> Map<Seq<char>, HourlyDeparturesView>
    decreases added.len(),
{
    if added.len() == 0 {
        start
    } else {
        counted(tally_onto(start, added.drop_last()), added.last())
    }
}

/// The statistics of every stop from which one of `departures` leaves.
pub open spec fn tally(departures: Seq<Departure>) -> Map<Seq<char>, HourlyDeparturesView> {
    tally_onto(Map::empty(), departures)
}

/// The statistics that a table of stops holds.
pub open spec fn statistics(table: AtcoMap<HourlyDepartures>) -> Map<
    Seq<char>,
    HourlyDeparturesView,
> {
    Map::new(|code: Seq<char>| table@.contains_key(code), |code: Seq<char>| table@[code]@)
}

/// Every counter of every stop can be raised `n` times without passing the
/// largest number that it can hold.
pub open spec fn has_room(stats: Map<Seq<char>, HourlyDeparturesView>, n: int) -> bool {
    forall|code: Seq<char>| #[trigger]
        stats.contains_key(code) ==> stats[code].within(u32::MAX - n)
}

/// At every stop and for every hour, no more journeys start than vehicles
/// depart.
pub open spec fn all_consistent(stats: Map<Seq<char>, HourlyDeparturesView>) -> bool {
    forall|code: Seq<char>| #[trigger] stats.contains_key(code) ==> stats[code].consistent()
}

/// Counting the departures `a` and then `b` is counting `a + b`.
pub proof fn lemma_tally_onto_concat(
    start: Map<Seq<char>, HourlyDeparturesView>,
    a: Seq<Departure>,
    b: Seq<Departure>,
)
    ensures
        tally_onto(tally_onto(start, a), b) == tally_onto(start, a + b),
    decreases b.len(),
{
    if b.len() == 0 {
        assert(a + b == a);
    } else {
        lemma_tally_onto_concat(start, a, b.drop_last());
        assert((a + b).drop_last() == a + b.drop_last());
        assert((a + b).last() == b.last());
    }
}

/// Counting keeps the counters consistent and raises none of them by more
/// than the number of departures counted.
pub proof fn lemma_tally_onto_sound(
    start: Map<Seq<char>, HourlyDeparturesView>,
    added: Seq<Departure>,
    limit: int,
)
    requires
        all_consistent(start),
        forall|code: Seq<char>| #[trigger] start.contains_key(code) ==> start[code].within(limit),
        limit >= 0,
        forall|i: int| 0 <= i < added.len() ==> 0 <= (#[trigger] added[i]).hour < 24,
    ensures
        all_consistent(tally_onto(start, added)),
        forall|code: Seq<char>| #[trigger]
            tally_onto(start, added).contains_key(code) ==> tally_onto(start, added)[code].within(
                limit + added.len(),
            ),
    decreases added.len(),
{
    if added.len() > 0 {
        let before = tally_onto(start, added.drop_last());
        let d = added.last();
        lemma_tally_onto_sound(start, added.drop_last(), limit);
        let after = counted(before, d);
        assert(0 <= d.hour < 24);
        let old = if before.contains_key(d.stop) {
            before[d.stop]
        } else {
            no_departures()
        };
        assert(old.consistent());
        assert(old.within(limit + added.len() - 1));
        assert(with_departure(old, d).consistent());
        assert(with_departure(old, d).within(limit + added.len()));
        assert forall|code: Seq<char>| #[trigger] after.contains_key(code) implies after[code].within(
            limit + added.len(),
        ) && after[code].consistent() by {
            if code != d.stop {
                assert(before.contains_key(code));
                assert(before[code].within(limit + added.len() - 1));
            }
        }
    }
}

/// For every stop and every hour, the departures with which a journey starts
/// are never more than the departures: this holds of whatever is counted.
pub proof fn lemma_starts_never_exceed_departures(departures: Seq<Departure>, code: Seq<char>, h: int)
    requires
        forall|i: int| 0 <= i < departures.len() ==> 0 <= (#[trigger] departures[i]).hour < 24,
        tally(departures).contains_key(code),
        0 <= h < 24,
    ensures
        0 <= tally(departures)[code].hour_counts_journey_starts[h] <= tally(
            departures,
        )[code].hour_counts[h],
{
    lemma_tally_onto_sound(Map::empty(), departures, 0);
    assert(tally(departures)[code].consistent());
}

/// How many of `departures` leave `stop` in the hour `hour`.
pub open spec fn departures_from(departures: Seq<Departure>, stop: Seq<char>, hour: int) -> int
    decreases departures.len(),
{
    if departures.len() == 0 {
        0
    } else {
        departures_from(departures.drop_last(), stop, hour) + (if departures.last().stop == stop
            && departures.last().hour == hour {
            1int
        } else {
            0int
        })
    }
}

/// How many of `departures` leave `stop` in the hour `hour` as the start of
/// a journey.
pub open spec fn starts_from(departures: Seq<Departure>, stop: Seq<char>, hour: int) -> int
    decreases departures.len(),
{
    if departures.len() == 0 {
        0
    } else {
        starts_from(departures.drop_last(), stop, hour) + (if departures.last().stop == stop
            && departures.last().hour == hour && departures.last().starts_journey {
            1int
        } else {
            0int
        })
    }
}

/// The stops called at next by those of `departures` that leave `stop` in
/// the hour `hour`, in their order.
pub open spec fn next_stops_from(departures: Seq<Departure>, stop: Seq<char>, hour: int) -> Seq<
    Seq<char>,
>
    decreases departures.len(),
{
    if departures.len() == 0 {
        Seq::empty()
    } else {
        let before = next_stops_from(departures.drop_last(), stop, hour);
        let d = departures.last();
        if d.stop == stop && d.hour == hour && d.next is Some {
            before.push(d.next->0)
        } else {
            before
        }
    }
}

/// Whether `stats` are the statistics of `stop` under `departures`: for
/// every hour, the counters are the number of departures from the stop in
/// that hour and the number of those that start a journey, and the next
/// stops are those of these departures, in their order.
pub open spec fn describes(
    stats: HourlyDeparturesView,
    departures: Seq<Departure>,
    stop: Seq<char>,
) -> bool {
    &&& stats.hour_counts.len() == 24
    &&& stats.hour_counts_journey_starts.len() == 24
    &&& stats.next_stop.len() == 24
    &&& forall|hour: int| 0 <= hour < 24 ==> describes_hour(stats, departures, stop, hour)
}

/// Whether `stats` say of the hour `hour` what `departures` give for `stop`.
pub open spec fn describes_hour(
    stats: HourlyDeparturesView,
    departures: Seq<Departure>,
    stop: Seq<char>,
    hour: int,
) -> bool {
    &&& stats.hour_counts[hour] == departures_from(departures, stop, hour)
    &&& stats.hour_counts_journey_starts[hour] == starts_from(departures, stop, hour)
    &&& stats.next_stop[hour] =~= next_stops_from(departures, stop, hour)
}

/// What the statistics say: a stop has statistics if and only if a departure
/// leaves it, and its statistics count its departures hour by hour. Of a
/// stop without statistics there is nothing to count.
pub proof fn lemma_tally_counts(departures: Seq<Departure>, stop: Seq<char>)
    requires
        hours_valid(departures),
    ensures
        tally(departures).contains_key(stop) <==> exists|i: int|
            0 <= i < departures.len() && (#[trigger] departures[i]).stop == stop,
        tally(departures).contains_key(stop) ==> describes(
            tally(departures)[stop],
            departures,
            stop,
        ),
        !tally(departures).contains_key(stop) ==> describes(no_departures(), departures, stop),
    decreases departures.len(),
{
    if departures.len() == 0 {
        assert(!tally(departures).contains_key(stop));
        assert forall|hour: int| 0 <= hour < 24 implies describes_hour(
            no_departures(),
            departures,
            stop,
            hour,
        ) by {}
    } else {
        let shorter = departures.drop_last();
        let d = departures.last();
        assert(0 <= d.hour < 24);
        assert(hours_valid(shorter)) by {
            assert forall|i: int| 0 <= i < shorter.len() implies 0 <= (#[trigger] shorter[i]).hour
                < 24 by {
                assert(shorter[i] == departures[i]);
            }
        }
        lemma_tally_counts(shorter, stop);
        let before = tally(shorter);
        let after = tally(departures);
        assert(after == counted(before, d));
        let earlier = if before.contains_key(stop) {
            before[stop]
        } else {
            no_departures()
        };
        assert(describes(earlier, shorter, stop));
        if d.stop == stop {
            assert(departures[departures.len() - 1].stop == stop);
            let stats = with_departure(earlier, d);
            assert(after[stop] == stats);
            assert forall|hour: int| 0 <= hour < 24 implies describes_hour(
                stats,
                departures,
                stop,
                hour,
            ) by {
                assert(describes_hour(earlier, shorter, stop, hour));
            }
        } else {
            assert forall|hour: int| 0 <= hour < 24 implies describes_hour(
                earlier,
                departures,
                stop,
                hour,
            ) by {
                assert(describes_hour(earlier, shorter, stop, hour));
            }
            assert(after.contains_key(stop) == before.contains_key(stop));
            if before.contains_key(stop) {
                assert(after[stop] == earlier);
                let i = choose|i: int| 0 <= i < shorter.len() && (#[trigger] shorter[i]).stop == stop;
                assert(departures[i].stop == stop);
            }
            if exists|i: int| 0 <= i < departures.len() && (#[trigger] departures[i]).stop == stop {
                let i = choose|i: int|
                    0 <= i < departures.len() && (#[trigger] departures[i]).stop == stop;
                assert(shorter[i].stop == stop);
            }
        }
    }
}

/// The hour in which a vehicle leaves a stop that has a time of departure.
pub open spec fn departure_hour(time: Option<SecondsPastMidnight>) -> int {
    match time {
        Some(t) => hour_of(t.0 as int),
        None => 0,
    }
}

/// The departure that the stop at position `i` of a journey gives: from its
/// own stop, in the hour of its time of departure, towards the stop after it.
pub open spec fn departure_at(stops: Seq<TripStopView>, i: int) -> Departure {
    Departure {
        stop: stops[i].atco_code,
        hour: departure_hour(stops[i].departure_time),
        starts_journey: stops[i].is_first_stop,
        next: if i + 1 < stops.len() {
            Some(stops[i + 1].atco_code)
        } else {
            None
        },
    }
}

/// Counts one more departure from the stop `trip_stop`, in the hour of its
/// time of departure; `next_stop` is the stop that the journey calls at next.
/// The stop gets its statistics with its first departure.
pub fn add_departure_hour_count(
    hourly_departures: &mut AtcoMap<HourlyDepartures>,
    trip_stop: &TripStop,
    next_stop: Option<&Atco>,
)
    requires
        old(hourly_departures).wf(),
        trip_stop.departure_time is Some,
        has_room(statistics(*old(hourly_departures)), 1),
    ensures
        final(hourly_departures).wf(),
        statistics(*final(hourly_departures)) == counted(
            statistics(*old(hourly_departures)),
            Departure {
                stop: trip_stop@.atco_code,
                hour: departure_hour(trip_stop.departure_time),
                starts_journey: trip_stop.is_first_stop,
                next: match next_stop {
                    Some(code) => Some(code@),
                    None => None,
                },
            },
        ),
{
    let ghost before = statistics(*hourly_departures);
    let ghost d = Departure {
        stop: trip_stop@.atco_code,
        hour: departure_hour(trip_stop.departure_time),
        starts_journey: trip_stop.is_first_stop,
        next: match next_stop {
            Some(code) => Some(code@),
            None => None,
        },
    };
    let hour = match trip_stop.departure_time {
        Some(time) => hour_bucket(time.0),
        None => 0,
    };
    let at = hourly_departures.insert_if_absent(trip_stop.atco_code.clone(), empty_hour_counts());
    let ghost middle = *hourly_departures;
    let ghost earlier = if before.contains_key(d.stop) {
        before[d.stop]
    } else {
        no_departures()
    };
    proof {
        middle.lemma_position(at as int);
        assert(middle.entries()[at as int]@ == earlier);
        assert(earlier.within(u32::MAX - 1));
    }
    let entry = hourly_departures.value_at_mut(at);
    proof {
        assert(entry@ == earlier);
        assert(earlier.hour_counts[hour as int] == entry.hour_counts@[hour as int]);
        assert(earlier.hour_counts_journey_starts[hour as int]
            == entry.hour_counts_journey_starts@[hour as int]);
    }
    entry.hour_counts[hour] = entry.hour_counts[hour] + 1;
    if trip_stop.is_first_stop {
        entry.hour_counts_journey_starts[hour] = entry.hour_counts_journey_starts[hour] + 1;
    }
    match next_stop {
        Some(code) => {
            entry.next_stop[hour].push(code.clone());
        },
        None => {},
    }
    proof {
        let changed = entry@;
        let wanted = with_departure(earlier, d);
        assert(changed.hour_counts =~= wanted.hour_counts);
        assert(changed.hour_counts_journey_starts =~= wanted.hour_counts_journey_starts);
        assert(changed.next_stop =~= wanted.next_stop) by {
            assert forall|h: int| 0 <= h < 24 implies #[trigger] changed.next_stop[h]
                =~= wanted.next_stop[h] by {}
        }
        assert(statistics(*final(hourly_departures)) =~= counted(before, d));
    }
}

/// The departures of the first `n` stops of a journey, in order: one from each
/// stop at which passengers may board.
pub open spec fn departures_among(stops: Seq<TripStopView>, n: int) -> Seq<Departure>
    decreases n,
{
    if n <= 0 {
        Seq::empty()
    } else if stops[n - 1].activity_flag.boards() {
        departures_among(stops, n - 1).push(departure_at(stops, n - 1))
    } else {
        departures_among(stops, n - 1)
    }
}

/// The first of the first `n` stops of a journey at which passengers may
/// board although it has no time of departure.
pub open spec fn untimed_among(stops: Seq<TripStopView>, n: int) -> Option<int>
    decreases n,
{
    if n <= 0 {
        None
    } else if untimed_among(stops, n - 1) is Some {
        untimed_among(stops, n - 1)
    } else if stops[n - 1].activity_flag.boards() && stops[n - 1].departure_time is None {
        Some(n - 1)
    } else {
        None
    }
}

/// Every stop of the journey at which passengers may board has a time of
/// departure.
pub open spec fn timed(stops: Seq<TripStopView>) -> bool {
    forall|i: int|
        0 <= i < stops.len() && (#[trigger] stops[i]).activity_flag.boards()
            ==> stops[i].departure_time is Some
}

/// `untimed_among` finds the first stop that stands against `timed`, and
/// none where there is none.
pub proof fn lemma_untimed_among(stops: Seq<TripStopView>, n: int)
    requires
        0 <= n <= stops.len(),
    ensures
        match untimed_among(stops, n) {
            Some(at) => {
                &&& 0 <= at < n
                &&& stops[at].activity_flag.boards()
                &&& stops[at].departure_time is None
                &&& forall|i: int|
                    0 <= i < at && (#[trigger] stops[i]).activity_flag.boards()
                        ==> stops[i].departure_time is Some
            },
            None => forall|i: int|
                0 <= i < n && (#[trigger] stops[i]).activity_flag.boards()
                    ==> stops[i].departure_time is Some,
        },
    decreases n,
{
    if n > 0 {
        lemma_untimed_among(stops, n - 1);
    }
}

/// Whether the analysis date, where one is given, lies within the dates of
/// operation of a journey, both ends included.
pub open spec fn runs_on_date(header: JourneyHeaderView, date: Option<Date>) -> bool {
    match date {
        Some(d) => date_le(header.date_runs_from, d) && date_le(d, header.date_runs_to),
        None => true,
    }
}

/// Whether a journey with `stop_count` stops is counted at all: it has more
/// than one stop, runs on the day of the week and on the date analysed, is
/// not deleted and carries passengers.
pub open spec fn accepted(
    header: JourneyHeaderView,
    stop_count: int,
    day: Day,
    date: Option<Date>,
) -> bool {
    &&& stop_count > 1
    &&& header.operating_days[day_number(day)]
    &&& header.status.operating()
    &&& header.category == Category::Passenger
    &&& runs_on_date(header, date)
}

/// The departures that a journey contributes: those of all its stops where
/// the journey is accepted and timed, none otherwise.
pub open spec fn journey_departures(
    header: JourneyHeaderView,
    stops: Seq<TripStopView>,
    day: Day,
    date: Option<Date>,
) -> Seq<Departure> {
    if accepted(header, stops.len() as int, day, date) && timed(stops) {
        departures_among(stops, stops.len() as int)
    } else {
        Seq::empty()
    }
}

/// A journey that was left out because one of its stops, at which passengers
/// may board, has no time of departure.
#[derive(Clone, Debug, PartialEq)]
pub struct JourneyFailure {
    /// The journey's identifier, from its header.
    pub journey: String,
    /// The first stop without a time of departure.
    pub stop: Atco,
}

/// A journey that was left out, as mathematical values.
pub struct JourneyFailureView {
    pub journey: Seq<char>,
    pub stop: Seq<char>,
}

impl View for JourneyFailure {
    type V = JourneyFailureView;

    open spec fn view(&self) -> JourneyFailureView {
        JourneyFailureView { journey: self.journey@, stop: self.stop@ }
    }
}

/// The views of a list of failures.
pub open spec fn failure_views(failures: Seq<JourneyFailure>) -> Seq<JourneyFailureView> {
    Seq::new(failures.len(), |i: int| failures[i]@)
}

/// The failure that a journey gives: it is accepted, but not timed.
pub open spec fn journey_failure(
    header: JourneyHeaderView,
    stops: Seq<TripStopView>,
    day: Day,
    date: Option<Date>,
) -> Option<JourneyFailureView> {
    if accepted(header, stops.len() as int, day, date) && !timed(stops) {
        Some(
            JourneyFailureView {
                journey: header.unique_journey_identifier,
                stop: stops[untimed_among(stops, stops.len() as int)->0].atco_code,
            },
        )
    } else {
        None
    }
}

/// A journey that is not accepted changes no statistics and gives no failure.
pub proof fn lemma_unaccepted_journey_not_counted(
    start: Map<Seq<char>, HourlyDeparturesView>,
    header: JourneyHeaderView,
    stops: Seq<TripStopView>,
    day: Day,
    date: Option<Date>,
)
    requires
        !accepted(header, stops.len() as int, day, date),
    ensures
        journey_departures(header, stops, day, date) == Seq::<Departure>::empty(),
        tally_onto(start, journey_departures(header, stops, day, date)) == start,
        journey_failure(header, stops, day, date) is None,
{
}

/// A journey of which a single stop is left, or none, changes the statistics
/// of no stop, whatever its header says.
pub proof fn lemma_single_stop_journey_not_counted(
    start: Map<Seq<char>, HourlyDeparturesView>,
    header: JourneyHeaderView,
    stops: Seq<TripStopView>,
    day: Day,
    date: Option<Date>,
)
    requires
        stops.len() <= 1,
    ensures
        tally_onto(start, journey_departures(header, stops, day, date)) == start,
        journey_failure(header, stops, day, date) is None,
{
    lemma_unaccepted_journey_not_counted(start, header, stops, day, date);
}

/// A journey whose header deletes it changes the statistics of no stop,
/// whatever else its header and its stops say.
pub proof fn lemma_deleted_journey_not_counted(
    start: Map<Seq<char>, HourlyDeparturesView>,
    header: JourneyHeaderView,
    stops: Seq<TripStopView>,
    day: Day,
    date: Option<Date>,
)
    requires
        header.status == Status::Delete,
    ensures
        tally_onto(start, journey_departures(header, stops, day, date)) == start,
        journey_failure(header, stops, day, date) is None,
{
    lemma_unaccepted_journey_not_counted(start, header, stops, day, date);
}

/// A journey that does not run on the day of the week analysed changes the
/// statistics of no stop.
pub proof fn lemma_journey_off_day_not_counted(
    start: Map<Seq<char>, HourlyDeparturesView>,
    header: JourneyHeaderView,
    stops: Seq<TripStopView>,
    day: Day,
    date: Option<Date>,
)
    requires
        !header.operating_days[day_number(day)],
    ensures
        tally_onto(start, journey_departures(header, stops, day, date)) == start,
        journey_failure(header, stops, day, date) is None,
{
    lemma_unaccepted_journey_not_counted(start, header, stops, day, date);
}

/// The departures that the journey in progress contributes when it is closed:
/// none where no header has been seen.
pub open spec fn closing_departures(
    header: Option<JourneyHeaderView>,
    stops: Seq<TripStopView>,
    day: Day,
    date: Option<Date>,
) -> Seq<Departure> {
    match header {
        Some(h) => journey_departures(h, stops, day, date),
        None => Seq::empty(),
    }
}

/// The failure that the journey in progress gives when it is closed: none
/// where no header has been seen.
pub open spec fn closing_failure(
    header: Option<JourneyHeaderView>,
    stops: Seq<TripStopView>,
    day: Day,
    date: Option<Date>,
) -> Option<JourneyFailureView> {
    match header {
        Some(h) => journey_failure(h, stops, day, date),
        None => None,
    }
}

/// The first of the stops at which passengers may board although it has no
/// time of departure.
pub fn first_untimed(stops: &Vec<TripStop>) -> (found: Option<usize>)
    ensures
        match found {
            Some(at) => untimed_among(trip_views(stops@), stops@.len() as int) == Some(at as int)
                && at < stops@.len(),
            None => untimed_among(trip_views(stops@), stops@.len() as int) is None,
        },
        found is None <==> timed(trip_views(stops@)),
{
    let ghost views = trip_views(stops@);
    let mut i: usize = 0;
    while i < stops.len()
        invariant
            i <= stops@.len(),
            views == trip_views(stops@),
            untimed_among(views, i as int) is None,
        decreases stops@.len() - i,
    {
        if stops[i].activity_flag.can_board() && stops[i].departure_time.is_none() {
            proof {
                assert(untimed_among(views, i + 1) == Some(i as int));
                lemma_untimed_rest(views, i + 1, stops@.len() as int);
                lemma_untimed_among(views, stops@.len() as int);
            }
            return Some(i);
        }
        i += 1;
    }
    proof {
        lemma_untimed_among(views, stops@.len() as int);
    }
    None
}

/// Once a stop without time is found, looking further finds the same stop.
proof fn lemma_untimed_rest(stops: Seq<TripStopView>, n: int, m: int)
    requires
        0 <= n <= m,
        untimed_among(stops, n) is Some,
    ensures
        untimed_among(stops, m) == untimed_among(stops, n),
    decreases m - n,
{
    if n < m {
        lemma_untimed_rest(stops, n, m - 1);
    }
}

/// A counter that has room for `n` departures has room for `n - 1` after one.
proof fn lemma_room_after(stats: Map<Seq<char>, HourlyDeparturesView>, d: Departure, n: int)
    requires
        has_room(stats, n),
        1 <= n <= u32::MAX,
        0 <= d.hour < 24,
        forall|code: Seq<char>| #[trigger]
            stats.contains_key(code) ==> stats[code].hour_counts.len() == 24
                && stats[code].hour_counts_journey_starts.len() == 24,
    ensures
        has_room(counted(stats, d), n - 1),
        forall|code: Seq<char>| #[trigger]
            counted(stats, d).contains_key(code) ==> counted(stats, d)[code].hour_counts.len()
                == 24 && counted(stats, d)[code].hour_counts_journey_starts.len() == 24,
{
    let after = counted(stats, d);
    assert forall|code: Seq<char>| #[trigger] after.contains_key(code) implies after[code].within(
        u32::MAX - (n - 1),
    ) && after[code].hour_counts.len() == 24 && after[code].hour_counts_journey_starts.len()
        == 24 by {
        if code != d.stop {
            assert(stats.contains_key(code));
            assert(stats[code].within(u32::MAX - n));
        } else {
            let before = if stats.contains_key(code) {
                stats[code]
            } else {
                no_departures()
            };
            assert(before.within(u32::MAX - n));
            assert(before.hour_counts.len() == 24);
            assert(before.hour_counts_journey_starts.len() == 24);
            let changed = with_departure(before, d);
            assert(after[code] == changed);
            assert forall|h: int| 0 <= h < 24 implies #[trigger] changed.hour_counts[h] <= u32::MAX
                - (n - 1) && changed.hour_counts_journey_starts[h] <= u32::MAX - (n - 1) by {
                assert(before.hour_counts[h] <= u32::MAX - n);
                assert(before.hour_counts_journey_starts[h] <= u32::MAX - n);
            }
        }
    }
}

/// Closes the journey in progress: where the journey is accepted, the
/// departures of its stops are counted; where one of them lacks its time of
/// departure, nothing of the journey is counted and the failure is returned.
pub fn push_previous_trip_if_acceptable(
    hourly_departures: &mut AtcoMap<HourlyDepartures>,
    current_trip_header: Option<&JourneyHeader>,
    current_trip_stops: &Vec<TripStop>,
    operating_day: &Day,
    date: &Option<Date>,
) -> (failure: Option<JourneyFailure>)
    requires
        old(hourly_departures).wf(),
        current_trip_stops@.len() <= u32::MAX,
        has_room(statistics(*old(hourly_departures)), current_trip_stops@.len() as int),
    ensures
        final(hourly_departures).wf(),
        statistics(*final(hourly_departures)) == tally_onto(
            statistics(*old(hourly_departures)),
            closing_departures(
                match current_trip_header {
                    Some(h) => Some(h@),
                    None => None,
                },
                trip_views(current_trip_stops@),
                *operating_day,
                *date,
            ),
        ),
        (match failure {
            Some(f) => Some(f@),
            None => None,
        }) == closing_failure(
            match current_trip_header {
                Some(h) => Some(h@),
                None => None,
            },
            trip_views(current_trip_stops@),
            *operating_day,
            *date,
        ),
{
    let ghost start = statistics(*hourly_departures);
    let ghost views = trip_views(current_trip_stops@);
    let header = match current_trip_header {
        Some(header) => header,
        None => {
            return None;
        },
    };
    let on_date = match date {
        Some(d) => d.within(&header.date_runs_from, &header.date_runs_to),
        None => true,
    };
    let passengers = match header.category {
        Category::Passenger => true,
        Category::Other => false,
    };
    if !(current_trip_stops.len() > 1 && header.operating_days.contains(operating_day)
        && header.status.is_operating() && passengers && on_date) {
        return None;
    }
    assert(accepted(header@, views.len() as int, *operating_day, *date));
    match first_untimed(current_trip_stops) {
        Some(at) => {
            return Some(
                JourneyFailure {
                    journey: header.unique_journey_identifier.clone(),
                    stop: current_trip_stops[at].atco_code.clone(),
                },
            );
        },
        None => {},
    }
    let n = current_trip_stops.len();
    let mut i: usize = 0;
    proof {
        assert forall|code: Seq<char>| #[trigger] start.contains_key(code) implies start[code].hour_counts.len()
            == 24 && start[code].hour_counts_journey_starts.len() == 24 by {}
    }
    while i < n
        invariant
            i <= n,
            n == current_trip_stops@.len(),
            n <= u32::MAX,
            views == trip_views(current_trip_stops@),
            timed(views),
            hourly_departures.wf(),
            statistics(*hourly_departures) == tally_onto(start, departures_among(views, i as int)),
            has_room(statistics(*hourly_departures), n - i),
            forall|code: Seq<char>| #[trigger]
                statistics(*hourly_departures).contains_key(code) ==> statistics(
                    *hourly_departures,
                )[code].hour_counts.len() == 24 && statistics(
                    *hourly_departures,
                )[code].hour_counts_journey_starts.len() == 24,
        decreases n - i,
    {
        let stop = &current_trip_stops[i];
        proof {
            assert(views[i as int] == stop@);
        }
        if stop.activity_flag.can_board() {
            let next = if i + 1 < n {
                Some(&current_trip_stops[i + 1].atco_code)
            } else {
                None
            };
            proof {
                if i + 1 < n {
                    assert(views[i + 1] == current_trip_stops@[i + 1]@);
                }
                let stats = statistics(*hourly_departures);
                let sofar = departures_among(views, i as int);
                let d = departure_at(views, i as int);
                lemma_room_after(stats, d, n - i);
                assert forall|code: Seq<char>| #[trigger] stats.contains_key(code) implies stats[code].within(
                    u32::MAX - 1,
                ) by {
                    assert(stats[code].within(u32::MAX - (n - i)));
                }
                assert(sofar.push(d).drop_last() == sofar);
                assert(sofar.push(d).last() == d);
                assert(tally_onto(start, departures_among(views, i + 1)) == counted(
                    tally_onto(start, sofar),
                    d,
                ));
            }
            add_departure_hour_count(hourly_departures, stop, next);
        } else {
            proof {
                assert(has_room(statistics(*hourly_departures), n - i - 1));
            }
        }
        i += 1;
    }
    None
}

/// How far the rebuilding of journeys has come.
pub struct Progress {
    /// The header of the journey in progress, once a header has been seen.
    pub header: Option<JourneyHeaderView>,
    /// The stops of the journey in progress.
    pub stops: Seq<TripStopView>,
    /// The departures of the journeys closed so far.
    pub departures: Seq<Departure>,
    /// The journeys closed so far that were left out for want of a time.
    pub failures: Seq<JourneyFailureView>,
}

/// Before the first record: no journey in progress, nothing counted.
pub open spec fn not_started() -> Progress {
    Progress {
        header: None,
        stops: Seq::empty(),
        departures: Seq::empty(),
        failures: Seq::empty(),
    }
}

/// The journey in progress is closed: what it contributes is added.
pub open spec fn closed(p: Progress, day: Day, date: Option<Date>) -> Progress {
    Progress {
        header: p.header,
        stops: p.stops,
        departures: p.departures + closing_departures(p.header, p.stops, day, date),
        failures: match closing_failure(p.header, p.stops, day, date) {
            Some(failure) => p.failures.push(failure),
            None => p.failures,
        },
    }
}

/// A stop of a journey under the canonical code of its identifier.
pub open spec fn resolved_stop(
    stop: JourneyRecordStopView,
    identifiers: Map<Seq<char>, Seq<char>>,
) -> TripStopView {
    TripStopView {
        atco_code: identifiers[stop.atco_code],
        activity_flag: stop.activity_flag,
        departure_time: stop.departure_time,
        is_first_stop: stop.is_first_stop,
    }
}

/// Whether a stop record joins the journey in progress: a header has been
/// seen, passengers may board or alight at the stop, and its identifier has a
/// canonical code.
pub open spec fn joins(
    p: Progress,
    stop: JourneyRecordStopView,
    identifiers: Map<Seq<char>, Seq<char>>,
) -> bool {
    &&& p.header is Some
    &&& stop.activity_flag != ActivityFlag::Neither
    &&& identifiers.contains_key(stop.atco_code)
}

/// One record further. A header closes the journey in progress and opens the
/// next; a stop joins the journey in progress or is passed over; a stop name
/// changes nothing.
pub open spec fn after_record(
    p: Progress,
    record: RecordView,
    identifiers: Map<Seq<char>, Seq<char>>,
    day: Day,
    date: Option<Date>,
) -> Progress {
    match record {
        RecordView::JourneyHeader(header) => Progress {
            header: Some(header),
            stops: Seq::empty(),
            departures: closed(p, day, date).departures,
            failures: closed(p, day, date).failures,
        },
        RecordView::JourneyRecordStop(stop) => if joins(p, stop, identifiers) {
            Progress {
                header: p.header,
                stops: p.stops.push(resolved_stop(stop, identifiers)),
                departures: p.departures,
                failures: p.failures,
            }
        } else {
            p
        },
        RecordView::StopName(_) => p,
    }
}

/// The progress after all of `records`, taken in order.
pub open spec fn after_records(
    records: Seq<RecordView>,
    identifiers: Map<Seq<char>, Seq<char>>,
    day: Day,
    date: Option<Date>,
) -> Progress
    decreases records.len(),
{
    if records.len() == 0 {
        not_started()
    } else {
        after_record(
            after_records(records.drop_last(), identifiers, day, date),
            records.last(),
            identifiers,
            day,
            date,
        )
    }
}

/// What a stream of records gives once its last journey is closed too.
pub open spec fn grouped(
    records: Seq<RecordView>,
    identifiers: Map<Seq<char>, Seq<char>>,
    day: Day,
    date: Option<Date>,
) -> Progress {
    closed(after_records(records, identifiers, day, date), day, date)
}

/// Every departure falls into one of the 24 hours of the day.
pub open spec fn hours_valid(departures: Seq<Departure>) -> bool {
    forall|i: int| 0 <= i < departures.len() ==> 0 <= (#[trigger] departures[i]).hour < 24
}

/// A journey gives at most one departure per stop, each in an hour of the day.
proof fn lemma_departures_among(stops: Seq<TripStopView>, n: int)
    requires
        0 <= n <= stops.len(),
    ensures
        departures_among(stops, n).len() <= n,
        hours_valid(departures_among(stops, n)),
    decreases n,
{
    if n > 0 {
        lemma_departures_among(stops, n - 1);
    }
}

/// The statistics of all stops, and the journeys that were left out because a
/// time of departure was missing.
pub struct GroupOutcome {
    pub departures: AtcoMap<HourlyDepartures>,
    pub failures: Vec<JourneyFailure>,
}

/// Rebuilds the journeys of a stream of records and counts their departures,
/// stop by stop and hour by hour.
///
/// `locations` gives the canonical code of every stop identifier that is to
/// be counted; stops with other identifiers are passed over. `day` is the day
/// of the week that is analysed and `date`, where given, the date: a journey
/// is counted only if it runs on both.
pub fn group(
    records: Vec<Record>,
    locations: &AtcoMap<Atco>,
    day: Day,
    date: Option<Date>,
) -> (outcome: GroupOutcome)
    requires
        locations.wf(),
        records@.len() <= u32::MAX,
    ensures
        outcome.departures.wf(),
        statistics(outcome.departures) == tally(
            grouped(record_views(records@), locations.texts(), day, date).departures,
        ),
        failure_views(outcome.failures@) == grouped(
            record_views(records@),
            locations.texts(),
            day,
            date,
        ).failures,
        all_consistent(statistics(outcome.departures)),
        hours_valid(grouped(record_views(records@), locations.texts(), day, date).departures),
{
    let mut hourly_departures: AtcoMap<HourlyDepartures> = AtcoMap::new();
    let mut failures: Vec<JourneyFailure> = Vec::new();
    let mut current_trip_header: Option<&JourneyHeader> = None;
    let mut current_trip_stops: Vec<TripStop> = Vec::new();
    let ghost all = record_views(records@);
    let ghost identifiers = locations.texts();
    let ghost mut progress = not_started();
    let n = records.len();
    let mut i: usize = 0;
    proof {
        assert(all.take(0) == Seq::<RecordView>::empty());
        assert(statistics(hourly_departures) =~= tally(progress.departures));
        assert(trip_views(current_trip_stops@) == progress.stops);
        assert(failure_views(failures@) == progress.failures);
    }
    while i < n
        invariant
            i <= n,
            n == records@.len(),
            n <= u32::MAX,
            locations.wf(),
            all == record_views(records@),
            identifiers == locations.texts(),
            progress == after_records(all.take(i as int), identifiers, day, date),
            progress.header == (match current_trip_header {
                Some(h) => Some(h@),
                None => None,
            }),
            progress.stops == trip_views(current_trip_stops@),
            progress.failures == failure_views(failures@),
            hourly_departures.wf(),
            statistics(hourly_departures) == tally(progress.departures),
            hours_valid(progress.departures),
            progress.departures.len() + current_trip_stops@.len() <= i,
        decreases n - i,
    {
        proof {
            assert(all.take(i + 1).drop_last() == all.take(i as int));
            assert(all.take(i + 1).last() == records@[i as int]@);
        }
        match &records[i] {
            Record::JourneyHeader(header) => {
                proof {
                    lemma_tally_onto_sound(Map::empty(), progress.departures, 0);
                    let stats = statistics(hourly_departures);
                    assert forall|code: Seq<char>| #[trigger] stats.contains_key(code) implies stats[code].within(
                    u32::MAX - current_trip_stops@.len()) by {
                        assert(stats[code].within(progress.departures.len() as int));
                    }
                }
                let failure = push_previous_trip_if_acceptable(
                    &mut hourly_departures,
                    current_trip_header,
                    &current_trip_stops,
                    &day,
                    &date,
                );
                let ghost closing = closing_departures(progress.header, progress.stops, day, date);
                let ghost before_failures = failure_views(failures@);
                match failure {
                    Some(f) => {
                        failures.push(f);
                        assert(failure_views(failures@) == before_failures.push(f@));
                    },
                    None => {},
                }
                proof {
                    lemma_tally_onto_concat(Map::empty(), progress.departures, closing);
                    if progress.header is Some {
                        lemma_departures_among(progress.stops, progress.stops.len() as int);
                    }
                    progress = after_record(progress, records@[i as int]@, identifiers, day, date);
                }
                current_trip_header = Some(header);
                current_trip_stops = Vec::new();
                proof {
                    assert(trip_views(current_trip_stops@) == progress.stops);
                }
            },
            Record::JourneyRecordStop(stop) => {
                let boards_or_alights = match stop.activity_flag {
                    ActivityFlag::Neither => false,
                    _ => true,
                };
                if current_trip_header.is_some() && boards_or_alights {
                    match locations.get(&stop.atco_code) {
                        Some(code) => {
                            let ghost before = trip_views(current_trip_stops@);
                            let trip_stop = TripStop {
                                atco_code: code.clone(),
                                activity_flag: stop.activity_flag,
                                departure_time: stop.departure_time,
                                is_first_stop: stop.is_first_stop,
                            };
                            current_trip_stops.push(trip_stop);
                            proof {
                                assert(trip_stop@ == resolved_stop(stop@, identifiers));
                                assert(trip_views(current_trip_stops@) == before.push(trip_stop@));
                            }
                        },
                        None => {},
                    }
                }
                proof {
                    progress = after_record(progress, records@[i as int]@, identifiers, day, date);
                }
            },
            Record::StopName(_) => {
                proof {
                    progress = after_record(progress, records@[i as int]@, identifiers, day, date);
                }
            },
        }
        i += 1;
    }
    proof {
        assert(all.take(n as int) == all);
        lemma_tally_onto_sound(Map::empty(), progress.departures, 0);
        let stats = statistics(hourly_departures);
        assert forall|code: Seq<char>| #[trigger] stats.contains_key(code) implies stats[code].within(
        u32::MAX - current_trip_stops@.len()) by {
            assert(stats[code].within(progress.departures.len() as int));
        }
    }
    let failure = push_previous_trip_if_acceptable(
        &mut hourly_departures,
        current_trip_header,
        &current_trip_stops,
        &day,
        &date,
    );
    let ghost closing = closing_departures(progress.header, progress.stops, day, date);
    let ghost before_failures = failure_views(failures@);
    match failure {
        Some(f) => {
            failures.push(f);
            assert(failure_views(failures@) == before_failures.push(f@));
        },
        None => {},
    }
    proof {
        lemma_tally_onto_concat(Map::empty(), progress.departures, closing);
        if progress.header is Some {
            lemma_departures_among(progress.stops, progress.stops.len() as int);
        }
        lemma_tally_onto_sound(Map::empty(), progress.departures + closing, 0);
    }
    GroupOutcome { departures: hourly_departures, failures }
}

} // verus!
