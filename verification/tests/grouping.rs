use connectivity::atco::{Atco, AtcoMap};
use connectivity::hour_grouping::{
    add_departure_hour_count, empty_hour_counts, first_untimed, group, hour_bucket,
    push_previous_trip_if_acceptable, HourlyDepartures, JourneyFailure, TripStop,
};
use connectivity::records::{
    ActivityFlag, Category, Date, Day, JourneyHeader, JourneyRecordStop, OperatingDays, Record,
    SecondsPastMidnight, Status, StopName,
};

fn atco(s: &str) -> Atco {
    Atco(s.to_string())
}

fn identity(codes: &[&str]) -> AtcoMap<Atco> {
    let mut map: AtcoMap<Atco> = AtcoMap::new();
    for code in codes {
        map.insert_if_absent(atco(code), atco(code));
    }
    map
}

fn header(id: &str) -> JourneyHeader {
    JourneyHeader {
        status: Status::New,
        operator: "OP".to_string(),
        unique_journey_identifier: id.to_string(),
        date_runs_from: Date { year: 2024, month: 10, day: 7 },
        date_runs_to: Date { year: 2024, month: 10, day: 13 },
        operating_days: OperatingDays([true, true, true, true, true, false, false]),
        route_number: "1".to_string(),
        category: Category::Passenger,
    }
}

fn origin(code: &str, departs: u32) -> Record {
    Record::JourneyRecordStop(JourneyRecordStop {
        atco_code: atco(code),
        activity_flag: ActivityFlag::PickUpOnly,
        arrival_time: None,
        departure_time: Some(SecondsPastMidnight(departs)),
        is_first_stop: true,
    })
}

fn calling(code: &str, flag: ActivityFlag, departs: u32) -> Record {
    Record::JourneyRecordStop(JourneyRecordStop {
        atco_code: atco(code),
        activity_flag: flag,
        arrival_time: Some(SecondsPastMidnight(departs)),
        departure_time: Some(SecondsPastMidnight(departs)),
        is_first_stop: false,
    })
}

fn destination(code: &str, arrives: u32) -> Record {
    Record::JourneyRecordStop(JourneyRecordStop {
        atco_code: atco(code),
        activity_flag: ActivityFlag::SetDownOnly,
        arrival_time: Some(SecondsPastMidnight(arrives)),
        departure_time: None,
        is_first_stop: false,
    })
}

fn journey(h: JourneyHeader) -> Vec<Record> {
    vec![
        Record::JourneyHeader(h),
        origin("A", 7 * 3600 + 600),
        calling("B", ActivityFlag::Both, 8 * 3600),
        calling("C", ActivityFlag::SetDownOnly, 8 * 3600 + 300),
        destination("D", 9 * 3600),
    ]
}

fn all() -> AtcoMap<Atco> {
    identity(&["A", "B", "C", "D"])
}

fn stats<'a>(table: &'a AtcoMap<HourlyDepartures>, code: &str) -> &'a HourlyDepartures {
    table.get(&atco(code)).unwrap()
}

fn codes(list: &[Atco]) -> Vec<&str> {
    list.iter().map(|a| a.0.as_str()).collect()
}

#[test]
fn a_journey_counts_one_departure_for_each_stop_where_passengers_board() {
    let outcome = group(journey(header("J1")), &all(), Day::Tuesday, None);
    assert!(outcome.failures.is_empty());
    let table = &outcome.departures;
    assert_eq!(table.len(), 2);
    assert!(table.get(&atco("C")).is_none());
    assert!(table.get(&atco("D")).is_none());
    let a = stats(table, "A");
    let mut counts = [0u32; 24];
    counts[7] = 1;
    assert_eq!(a.hour_counts, counts);
    assert_eq!(a.hour_counts_journey_starts, counts);
    assert_eq!(codes(&a.next_stop[7]), vec!["B"]);
    let b = stats(table, "B");
    let mut counts = [0u32; 24];
    counts[8] = 1;
    assert_eq!(b.hour_counts, counts);
    assert_eq!(b.hour_counts_journey_starts, [0u32; 24]);
    assert_eq!(codes(&b.next_stop[8]), vec!["C"]);
    for h in 0..24 {
        if h != 8 {
            assert!(b.next_stop[h].is_empty());
        }
    }
}

#[test]
fn journey_starts_never_exceed_departures() {
    let mut records = Vec::new();
    for n in 0..5 {
        records.extend(journey(header(&format!("J{}", n))));
    }
    records.push(Record::JourneyHeader(header("K")));
    records.push(calling("A", ActivityFlag::Both, 7 * 3600));
    records.push(destination("B", 8 * 3600));
    let outcome = group(records, &all(), Day::Monday, None);
    let table = &outcome.departures;
    assert_eq!(stats(table, "A").hour_counts[7], 6);
    assert_eq!(stats(table, "A").hour_counts_journey_starts[7], 5);
    for i in 0..table.len() {
        let d = table.value_at(i);
        for h in 0..24 {
            assert!(d.hour_counts_journey_starts[h] <= d.hour_counts[h]);
        }
    }
}

#[test]
fn a_journey_with_a_single_stop_left_is_not_counted() {
    let outcome = group(journey(header("J1")), &identity(&["A"]), Day::Tuesday, None);
    assert_eq!(outcome.departures.len(), 0);
    assert!(outcome.failures.is_empty());
    let records = vec![Record::JourneyHeader(header("J2")), origin("A", 25200)];
    let outcome = group(records, &all(), Day::Tuesday, None);
    assert_eq!(outcome.departures.len(), 0);
    let outcome = group(vec![Record::JourneyHeader(header("J3"))], &all(), Day::Tuesday, None);
    assert_eq!(outcome.departures.len(), 0);
}

#[test]
fn a_deleted_journey_is_not_counted() {
    let mut h = header("J1");
    h.status = Status::Delete;
    let outcome = group(journey(h), &all(), Day::Tuesday, None);
    assert_eq!(outcome.departures.len(), 0);
    let mut h = header("J1");
    h.status = Status::Revise;
    let outcome = group(journey(h), &all(), Day::Tuesday, None);
    assert_eq!(outcome.departures.len(), 2);
}

#[test]
fn a_journey_that_does_not_run_on_the_day_is_not_counted() {
    let outcome = group(journey(header("J1")), &all(), Day::Saturday, None);
    assert_eq!(outcome.departures.len(), 0);
    let outcome = group(journey(header("J1")), &all(), Day::Sunday, None);
    assert_eq!(outcome.departures.len(), 0);
    let outcome = group(journey(header("J1")), &all(), Day::Friday, None);
    assert_eq!(outcome.departures.len(), 2);
}

#[test]
fn a_journey_that_carries_no_passengers_is_not_counted() {
    let mut h = header("J1");
    h.category = Category::Other;
    let outcome = group(journey(h), &all(), Day::Tuesday, None);
    assert_eq!(outcome.departures.len(), 0);
}

#[test]
fn a_journey_is_counted_on_the_dates_of_its_range_only() {
    let on = |y: u16, m: u8, d: u8| {
        group(journey(header("J1")), &all(), Day::Tuesday, Some(Date { year: y, month: m, day: d }))
            .departures
            .len()
    };
    assert_eq!(on(2024, 10, 6), 0);
    assert_eq!(on(2024, 10, 7), 2);
    assert_eq!(on(2024, 10, 10), 2);
    assert_eq!(on(2024, 10, 13), 2);
    assert_eq!(on(2024, 10, 14), 0);
    assert_eq!(on(2023, 12, 31), 0);
    assert_eq!(on(2025, 1, 1), 0);
}

#[test]
fn stops_without_canonical_code_are_dropped_and_the_journey_goes_on() {
    let outcome = group(journey(header("J1")), &identity(&["A", "C", "D"]), Day::Tuesday, None);
    let table = &outcome.departures;
    assert_eq!(table.len(), 1);
    assert_eq!(codes(&stats(table, "A").next_stop[7]), vec!["C"]);
}

#[test]
fn stops_are_counted_under_their_canonical_code() {
    let mut map: AtcoMap<Atco> = AtcoMap::new();
    map.insert_if_absent(atco("A"), atco("STN"));
    map.insert_if_absent(atco("B"), atco("STN"));
    map.insert_if_absent(atco("C"), atco("OTH"));
    map.insert_if_absent(atco("D"), atco("END"));
    let outcome = group(journey(header("J1")), &map, Day::Tuesday, None);
    let table = &outcome.departures;
    assert_eq!(table.len(), 1);
    let stn = stats(table, "STN");
    assert_eq!(stn.hour_counts[7], 1);
    assert_eq!(stn.hour_counts[8], 1);
    assert_eq!(codes(&stn.next_stop[7]), vec!["STN"]);
    assert_eq!(codes(&stn.next_stop[8]), vec!["OTH"]);
}

#[test]
fn stops_where_nobody_boards_or_alights_are_never_part_of_the_journey() {
    let records = vec![
        Record::JourneyHeader(header("J1")),
        origin("A", 7 * 3600),
        calling("B", ActivityFlag::Neither, 7 * 3600 + 60),
        destination("C", 8 * 3600),
    ];
    let outcome = group(records, &all(), Day::Tuesday, None);
    assert_eq!(codes(&stats(&outcome.departures, "A").next_stop[7]), vec!["C"]);
    let records = vec![
        Record::JourneyHeader(header("J2")),
        origin("A", 7 * 3600),
        calling("B", ActivityFlag::Neither, 7 * 3600 + 60),
    ];
    let outcome = group(records, &all(), Day::Tuesday, None);
    assert_eq!(outcome.departures.len(), 0);
}

#[test]
fn stops_before_the_first_header_belong_to_no_journey() {
    let records = vec![
        origin("A", 7 * 3600),
        destination("B", 8 * 3600),
        Record::StopName(StopName {
            status: Status::New,
            atco_code: atco("A"),
            name: "A".to_string(),
            reference: None,
            station_code: None,
        }),
    ];
    let outcome = group(records, &all(), Day::Tuesday, None);
    assert_eq!(outcome.departures.len(), 0);
    assert!(outcome.failures.is_empty());
}

#[test]
fn the_last_journey_is_closed_at_the_end_of_the_stream() {
    let mut records = journey(header("J1"));
    records.extend(journey(header("J2")));
    let outcome = group(records, &all(), Day::Tuesday, None);
    assert_eq!(stats(&outcome.departures, "A").hour_counts[7], 2);
    assert_eq!(codes(&stats(&outcome.departures, "A").next_stop[7]), vec!["B", "B"]);
}

#[test]
fn late_times_fall_into_the_last_hour() {
    let records = vec![
        Record::JourneyHeader(header("J1")),
        origin("A", 23 * 3600 + 3599),
        calling("B", ActivityFlag::Both, 24 * 3600),
        calling("C", ActivityFlag::Both, 362340),
        destination("D", 0),
    ];
    let outcome = group(records, &all(), Day::Tuesday, None);
    for code in ["A", "B", "C"] {
        assert_eq!(stats(&outcome.departures, code).hour_counts[23], 1);
    }
    assert_eq!(hour_bucket(0), 0);
    assert_eq!(hour_bucket(3599), 0);
    assert_eq!(hour_bucket(3600), 1);
    assert_eq!(hour_bucket(82799), 22);
    assert_eq!(hour_bucket(82800), 23);
    assert_eq!(hour_bucket(86400), 23);
    assert_eq!(hour_bucket(u32::MAX), 23);
}

#[test]
fn a_missing_time_of_departure_leaves_the_whole_journey_out_and_is_reported() {
    let mut records = journey(header("GOOD"));
    records.push(Record::JourneyHeader(header("BAD")));
    records.push(origin("A", 7 * 3600));
    records.push(Record::JourneyRecordStop(JourneyRecordStop {
        atco_code: atco("B"),
        activity_flag: ActivityFlag::Both,
        arrival_time: Some(SecondsPastMidnight(8 * 3600)),
        departure_time: None,
        is_first_stop: false,
    }));
    records.push(Record::JourneyRecordStop(JourneyRecordStop {
        atco_code: atco("C"),
        activity_flag: ActivityFlag::PickUpOnly,
        arrival_time: None,
        departure_time: None,
        is_first_stop: false,
    }));
    records.push(destination("D", 9 * 3600));
    records.extend(journey(header("LAST")));
    let outcome = group(records, &all(), Day::Tuesday, None);
    assert_eq!(
        outcome.failures,
        vec![JourneyFailure { journey: "BAD".to_string(), stop: atco("B") }]
    );
    assert_eq!(stats(&outcome.departures, "A").hour_counts[7], 2);
    assert_eq!(stats(&outcome.departures, "B").hour_counts[8], 2);
}

#[test]
fn a_missing_time_is_no_failure_where_the_journey_is_not_counted_anyway() {
    let mut h = header("OFF");
    h.status = Status::Delete;
    let records = vec![
        Record::JourneyHeader(h),
        Record::JourneyRecordStop(JourneyRecordStop {
            atco_code: atco("A"),
            activity_flag: ActivityFlag::Both,
            arrival_time: None,
            departure_time: None,
            is_first_stop: true,
        }),
        destination("B", 3600),
    ];
    let outcome = group(records, &all(), Day::Tuesday, None);
    assert!(outcome.failures.is_empty());
    assert_eq!(outcome.departures.len(), 0);
}

#[test]
fn an_empty_stream_gives_empty_statistics() {
    let outcome = group(Vec::new(), &all(), Day::Monday, None);
    assert_eq!(outcome.departures.len(), 0);
    assert!(outcome.failures.is_empty());
}

#[test]
fn empty_hour_counts_are_all_zero() {
    let empty = empty_hour_counts();
    assert_eq!(empty.hour_counts, [0u32; 24]);
    assert_eq!(empty.hour_counts_journey_starts, [0u32; 24]);
    assert!(empty.next_stop.iter().all(|hour| hour.is_empty()));
}

#[test]
fn one_departure_is_added_in_the_hour_of_its_time() {
    let mut table: AtcoMap<HourlyDepartures> = AtcoMap::new();
    let stop = TripStop {
        atco_code: atco("A"),
        activity_flag: ActivityFlag::Both,
        departure_time: Some(SecondsPastMidnight(13 * 3600 + 1)),
        is_first_stop: true,
    };
    add_departure_hour_count(&mut table, &stop, Some(&atco("B")));
    add_departure_hour_count(&mut table, &stop, None);
    let later = TripStop { is_first_stop: false, ..stop.clone() };
    add_departure_hour_count(&mut table, &later, Some(&atco("C")));
    let a = stats(&table, "A");
    assert_eq!(a.hour_counts[13], 3);
    assert_eq!(a.hour_counts_journey_starts[13], 2);
    assert_eq!(codes(&a.next_stop[13]), vec!["B", "C"]);
    assert_eq!(a.hour_counts.iter().sum::<u32>(), 3);
}

#[test]
fn closing_a_journey_without_header_changes_nothing() {
    let mut table: AtcoMap<HourlyDepartures> = AtcoMap::new();
    let stops = vec![
        TripStop {
            atco_code: atco("A"),
            activity_flag: ActivityFlag::Both,
            departure_time: Some(SecondsPastMidnight(0)),
            is_first_stop: true,
        },
        TripStop {
            atco_code: atco("B"),
            activity_flag: ActivityFlag::Both,
            departure_time: Some(SecondsPastMidnight(60)),
            is_first_stop: false,
        },
    ];
    let failure = push_previous_trip_if_acceptable(&mut table, None, &stops, &Day::Monday, &None);
    assert_eq!(failure, None);
    assert_eq!(table.len(), 0);
    let h = header("J");
    let failure =
        push_previous_trip_if_acceptable(&mut table, Some(&h), &stops, &Day::Monday, &None);
    assert_eq!(failure, None);
    assert_eq!(table.len(), 2);
    assert_eq!(first_untimed(&stops), None);
}
