use connectivity::atco::{Atco, AtcoMap};
use connectivity::criteria::{
    all_hours_rule, average_rule, count_up_to, does_station_meet_all_6_10,
    does_station_meet_all_7_7, does_station_meet_avg_6_10, does_station_meet_avg_7_7,
    evaluate_criteria, evaluate_stop, has_repeated, has_three_distinct, weigh, RuleOutcome,
};
use connectivity::hour_grouping::{empty_hour_counts, HourlyDepartures};

fn atco(s: &str) -> Atco {
    Atco(s.to_string())
}

fn with_counts(from: usize, to: usize, departures: u32, starts: u32) -> HourlyDepartures {
    let mut d = empty_hour_counts();
    for h in from..to {
        d.hour_counts[h] = departures;
        d.hour_counts_journey_starts[h] = starts;
    }
    d
}

fn towards(d: &mut HourlyDepartures, h: usize, codes: &[&str]) {
    for code in codes {
        d.next_stop[h].push(atco(code));
    }
}

#[test]
fn four_departures_in_every_hour_of_the_day_meet_both_day_rules() {
    let d = with_counts(7, 19, 4, 0);
    assert!(does_station_meet_all_7_7(&d));
    assert!(does_station_meet_avg_7_7(&d));
    assert!(!does_station_meet_all_6_10(&d));
    assert!(!does_station_meet_avg_6_10(&d));
    let results = evaluate_stop(&atco("S"), &d);
    assert_eq!(results.atco_code, atco("S"));
    assert_eq!(results.hour_counts, d.hour_counts);
    assert_eq!(results.hour_counts_journey_starts, [0u32; 24]);
    assert!(results.all_7_7);
    assert!(results.avg_7_7);
    assert!(!results.all_6_10);
    assert!(!results.avg_6_10);
    assert!(!results.flagged_for_review);
    assert!(results.next_stop.is_none());
}

#[test]
fn three_departures_an_hour_without_next_stops_meet_nothing_and_flag_nothing() {
    let d = with_counts(7, 19, 3, 0);
    let results = evaluate_stop(&atco("S"), &d);
    assert!(!results.all_7_7);
    assert!(!results.avg_7_7);
    assert!(!results.flagged_for_review);
    assert!(results.next_stop.is_none());
}

#[test]
fn three_departures_an_hour_to_three_stops_each_are_flagged() {
    let mut d = with_counts(7, 19, 3, 0);
    for h in 7..19 {
        towards(&mut d, h, &["X", "Y", "Z"]);
    }
    let results = evaluate_stop(&atco("S"), &d);
    assert!(!results.all_7_7);
    assert!(!results.avg_7_7);
    assert!(results.flagged_for_review);
    let table = results.next_stop.expect("a flagged stop carries its next stops");
    for h in 0..24 {
        assert_eq!(table[h], d.next_stop[h]);
    }
    assert_eq!(all_hours_rule(&d, 7, 19), RuleOutcome { met: false, flagged: true });
    assert_eq!(average_rule(&d, 7, 19), RuleOutcome { met: false, flagged: true });
    assert_eq!(all_hours_rule(&d, 6, 22), RuleOutcome { met: false, flagged: false });
    assert_eq!(average_rule(&d, 6, 22), RuleOutcome { met: false, flagged: false });
}

#[test]
fn one_hour_with_two_next_stops_only_takes_the_all_hours_flag_away() {
    let mut d = with_counts(7, 19, 3, 0);
    for h in 7..19 {
        if h == 12 {
            towards(&mut d, h, &["X", "Y", "Y", "X"]);
        } else {
            towards(&mut d, h, &["X", "Y", "Z"]);
        }
    }
    assert_eq!(all_hours_rule(&d, 7, 19), RuleOutcome { met: false, flagged: false });
    assert_eq!(average_rule(&d, 7, 19), RuleOutcome { met: false, flagged: true });
    assert!(evaluate_stop(&atco("S"), &d).flagged_for_review);
}

#[test]
fn two_departures_an_hour_to_the_same_next_stop_meet_the_extended_rule() {
    let mut d = with_counts(6, 22, 2, 0);
    for h in 6..22 {
        towards(&mut d, h, &["NEXT", "NEXT"]);
    }
    assert!(does_station_meet_all_6_10(&d));
    assert!(does_station_meet_all_7_7(&d));
    assert!(does_station_meet_avg_6_10(&d));
    assert!(does_station_meet_avg_7_7(&d));
    let results = evaluate_stop(&atco("S"), &d);
    assert!(results.all_6_10);
    assert!(!results.flagged_for_review);
    assert!(results.next_stop.is_none());
}

#[test]
fn the_same_next_stop_must_repeat_in_every_hour() {
    let mut d = with_counts(6, 22, 2, 0);
    for h in 6..22 {
        if h == 21 {
            towards(&mut d, h, &["NEXT", "OTHER"]);
        } else {
            towards(&mut d, h, &["OTHER", "NEXT", "NEXT"]);
        }
    }
    assert!(!does_station_meet_all_6_10(&d));
    assert!(does_station_meet_all_7_7(&d));
    assert!(!does_station_meet_avg_6_10(&d));
    let mut d = with_counts(6, 22, 2, 0);
    for h in 6..22 {
        towards(&mut d, h, if h % 2 == 0 { &["A", "A"] } else { &["B", "B"] });
    }
    assert!(!does_station_meet_all_6_10(&d));
    assert!(!does_station_meet_all_7_7(&d));
}

#[test]
fn the_candidate_need_not_stand_first_in_the_first_hour() {
    let mut d = empty_hour_counts();
    for h in 7..19 {
        towards(&mut d, h, &["A", "B", "C", "B"]);
    }
    d.next_stop[7].clear();
    towards(&mut d, 7, &["A", "C", "B", "B"]);
    d.next_stop[8].clear();
    towards(&mut d, 8, &["B", "B", "C", "C"]);
    assert!(does_station_meet_all_7_7(&d));
}

#[test]
fn two_journey_starts_make_an_hour_frequent() {
    let d = with_counts(7, 19, 2, 2);
    assert!(does_station_meet_all_7_7(&d));
    assert!(does_station_meet_avg_7_7(&d));
    assert_eq!(weigh(&d, 7, 19), 48);
    let d = with_counts(7, 19, 3, 1);
    assert!(!does_station_meet_all_7_7(&d));
    assert!(!does_station_meet_avg_7_7(&d));
    assert_eq!(weigh(&d, 7, 19), 36);
}

#[test]
fn the_average_can_be_met_where_single_hours_fail() {
    let mut d = empty_hour_counts();
    d.hour_counts[8] = 48;
    assert!(!does_station_meet_all_7_7(&d));
    assert!(does_station_meet_avg_7_7(&d));
    assert!(!does_station_meet_avg_6_10(&d));
    d.hour_counts[8] = 47;
    assert!(!does_station_meet_avg_7_7(&d));
    d.hour_counts[18] = 1;
    assert!(does_station_meet_avg_7_7(&d));
    d.hour_counts[18] = 0;
    d.hour_counts[19] = 1;
    d.hour_counts[6] = 1;
    assert!(!does_station_meet_avg_7_7(&d));
    d.hour_counts[6] = 17;
    assert!(does_station_meet_avg_6_10(&d));
}

#[test]
fn the_average_can_be_met_through_one_next_stop() {
    let mut d = empty_hour_counts();
    for _ in 0..24 {
        d.next_stop[10].push(atco("N"));
    }
    assert!(does_station_meet_avg_7_7(&d));
    assert!(!does_station_meet_all_7_7(&d));
    assert!(!does_station_meet_avg_6_10(&d));
    d.next_stop[10].pop();
    assert!(!does_station_meet_avg_7_7(&d));
    d.next_stop[19].push(atco("N"));
    assert!(!does_station_meet_avg_7_7(&d));
    d.next_stop[7].push(atco("M"));
    assert!(!does_station_meet_avg_7_7(&d));
    d.next_stop[18].push(atco("N"));
    assert!(does_station_meet_avg_7_7(&d));
}

#[test]
fn hours_outside_the_range_have_no_part_in_a_rule() {
    let mut d = with_counts(0, 24, 0, 0);
    for h in (0..7).chain(19..24) {
        d.hour_counts[h] = 100;
        towards(&mut d, h, &["A", "A", "B", "C"]);
    }
    assert_eq!(all_hours_rule(&d, 7, 19), RuleOutcome { met: false, flagged: false });
    assert_eq!(average_rule(&d, 7, 19), RuleOutcome { met: false, flagged: false });
    assert_eq!(all_hours_rule(&d, 19, 24), RuleOutcome { met: true, flagged: false });
    assert_eq!(all_hours_rule(&d, 18, 19), RuleOutcome { met: false, flagged: false });
}

#[test]
fn large_counters_do_not_overflow_the_average() {
    let d = with_counts(0, 24, u32::MAX, u32::MAX);
    assert_eq!(weigh(&d, 0, 24), 24 * 2 * (u32::MAX as u64));
    assert!(does_station_meet_avg_6_10(&d));
    assert!(does_station_meet_all_6_10(&d));
}

#[test]
fn counting_stops_at_the_cap() {
    let a = atco("A");
    let b = atco("B");
    let list = vec![&a, &b, &a, &a];
    assert_eq!(count_up_to(&list, &a, 10), 3);
    assert_eq!(count_up_to(&list, &a, 3), 3);
    assert_eq!(count_up_to(&list, &a, 2), 2);
    assert_eq!(count_up_to(&list, &a, 0), 0);
    assert_eq!(count_up_to(&list, &b, 5), 1);
    assert_eq!(count_up_to(&list, &atco("C"), 5), 0);
    assert!(has_repeated(&list, 3));
    assert!(!has_repeated(&list, 4));
    assert!(has_repeated(&list, 1));
    assert!(!has_repeated(&Vec::new(), 1));
}

#[test]
fn three_distinct_codes_are_found_wherever_they_stand() {
    let a = atco("A");
    let b = atco("B");
    let c = atco("C");
    assert!(!has_three_distinct(&Vec::new()));
    assert!(!has_three_distinct(&vec![&a]));
    assert!(!has_three_distinct(&vec![&a, &a, &a]));
    assert!(!has_three_distinct(&vec![&a, &b, &a, &b, &b]));
    assert!(has_three_distinct(&vec![&a, &b, &c]));
    assert!(has_three_distinct(&vec![&a, &a, &b, &a, &b, &c]));
    assert!(has_three_distinct(&vec![&c, &c, &c, &a, &c, &b]));
}

#[test]
fn every_stop_is_judged_on_its_own() {
    let mut table: AtcoMap<HourlyDepartures> = AtcoMap::new();
    table.insert_if_absent(atco("GOOD"), with_counts(6, 22, 4, 0));
    table.insert_if_absent(atco("POOR"), with_counts(7, 19, 3, 0));
    let mut flagged = with_counts(7, 19, 3, 0);
    for h in 7..19 {
        towards(&mut flagged, h, &["X", "Y", "Z"]);
    }
    table.insert_if_absent(atco("ODD"), flagged);
    let results = evaluate_criteria(&table);
    assert_eq!(results.len(), 3);
    assert_eq!(results.key_at(0), &atco("GOOD"));
    assert_eq!(results.key_at(1), &atco("POOR"));
    assert_eq!(results.key_at(2), &atco("ODD"));
    for i in 0..3 {
        assert_eq!(
            results.value_at(i),
            &evaluate_stop(table.key_at(i), table.value_at(i))
        );
    }
    let good = results.get(&atco("GOOD")).unwrap();
    assert!(good.all_7_7 && good.all_6_10 && good.avg_7_7 && good.avg_6_10);
    assert!(!good.flagged_for_review);
    let poor = results.get(&atco("POOR")).unwrap();
    assert!(!poor.all_7_7 && !poor.all_6_10 && !poor.avg_7_7 && !poor.avg_6_10);
    assert!(!poor.flagged_for_review);
    assert!(results.get(&atco("ODD")).unwrap().flagged_for_review);
    assert_eq!(evaluate_criteria(&AtcoMap::new()).len(), 0);
}
