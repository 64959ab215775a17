use connectivity::atco::{Atco, AtcoMap};
use connectivity::public_transport_mode::PublicTransportMode;
use connectivity::records::{
    assemble, decode_line, lines_of_text, parse, ActivityFlag, Category, Date, Day, DecodeError,
    JourneyHeader, JourneyRecordStop, OperatingDays, Record, RecordIdentifier,
    SecondsPastMidnight, Status, StopName, TimeConversion,
};

const HEADER: &str = "QSNNXMT3     20241007202410131111100  YEL       Metro           O";
const ORIGIN: &str = "QO9400ZZTWSSH10000   T1  ";
const INTERMEDIATE: &str = "QI9400ZZTWCHT200020003P   T1  ";
const DESTINATION: &str = "QT9400ZZTWPLW20040   T1";
const NAME: &str = "QLN9400ZZTWSSH1South Shields, (Tyne and Wear Metro Station)     B        ";

fn no_mapping() -> AtcoMap<Atco> {
    AtcoMap::new()
}

fn atco(s: &str) -> Atco {
    Atco(s.to_string())
}

#[test]
fn header_line_is_decoded_field_by_field() {
    let decoded = decode_line(HEADER, &no_mapping());
    let expected = JourneyHeader {
        status: Status::New,
        operator: "NXMT".to_string(),
        unique_journey_identifier: "3".to_string(),
        date_runs_from: Date { year: 2024, month: 10, day: 7 },
        date_runs_to: Date { year: 2024, month: 10, day: 13 },
        operating_days: OperatingDays([true, true, true, true, true, false, false]),
        route_number: "YEL".to_string(),
        category: Category::Passenger,
    };
    assert_eq!(decoded, Ok(Some(Record::JourneyHeader(expected))));
}

#[test]
fn origin_line_gives_a_first_stop_with_departure_only() {
    let decoded = decode_line(ORIGIN, &no_mapping());
    let expected = JourneyRecordStop {
        atco_code: atco("9400ZZTWSSH1"),
        activity_flag: ActivityFlag::PickUpOnly,
        arrival_time: None,
        departure_time: Some(SecondsPastMidnight(0)),
        is_first_stop: true,
    };
    assert_eq!(decoded, Ok(Some(Record::JourneyRecordStop(expected))));
}

#[test]
fn intermediate_line_gives_both_times_and_its_flag() {
    let decoded = decode_line(INTERMEDIATE, &no_mapping());
    let expected = JourneyRecordStop {
        atco_code: atco("9400ZZTWCHT2"),
        activity_flag: ActivityFlag::PickUpOnly,
        arrival_time: Some(SecondsPastMidnight(120)),
        departure_time: Some(SecondsPastMidnight(180)),
        is_first_stop: false,
    };
    assert_eq!(decoded, Ok(Some(Record::JourneyRecordStop(expected))));
}

#[test]
fn destination_line_gives_arrival_only() {
    let decoded = decode_line(DESTINATION, &no_mapping());
    let expected = JourneyRecordStop {
        atco_code: atco("9400ZZTWPLW2"),
        activity_flag: ActivityFlag::SetDownOnly,
        arrival_time: Some(SecondsPastMidnight(40 * 60)),
        departure_time: None,
        is_first_stop: false,
    };
    assert_eq!(decoded, Ok(Some(Record::JourneyRecordStop(expected))));
}

#[test]
fn name_line_is_trimmed_and_loses_its_commas() {
    let decoded = decode_line(NAME, &no_mapping());
    let expected = StopName {
        status: Status::New,
        atco_code: atco("9400ZZTWSSH1"),
        name: "South Shields (Tyne and Wear Metro Station)".to_string(),
        reference: None,
        station_code: None,
    };
    assert_eq!(decoded, Ok(Some(Record::StopName(expected))));
}

#[test]
fn lines_of_other_types_are_passed_over() {
    assert_eq!(decode_line("QBN9400ZZTWSSH1436344  567224", &no_mapping()), Ok(None));
    assert_eq!(decode_line("ATCO-CIF0510", &no_mapping()), Ok(None));
    assert_eq!(decode_line("Q", &no_mapping()), Ok(None));
    assert_eq!(decode_line("", &no_mapping()), Ok(None));
    assert_eq!(decode_line("qs", &no_mapping()), Ok(None));
}

#[test]
fn short_lines_of_a_decoded_type_are_too_short() {
    assert_eq!(decode_line("QS", &no_mapping()), Err(DecodeError::TooShort));
    assert_eq!(decode_line(&HEADER[..55], &no_mapping()), Err(DecodeError::TooShort));
    assert!(decode_line(&HEADER[..56], &no_mapping()).is_ok());
    assert_eq!(decode_line(&ORIGIN[..17], &no_mapping()), Err(DecodeError::TooShort));
    assert_eq!(decode_line(&INTERMEDIATE[..22], &no_mapping()), Err(DecodeError::TooShort));
    assert_eq!(decode_line(&DESTINATION[..17], &no_mapping()), Err(DecodeError::TooShort));
    assert_eq!(decode_line(&NAME[..62], &no_mapping()), Err(DecodeError::TooShort));
    assert!(decode_line(&NAME[..63], &no_mapping()).is_ok());
}

#[test]
fn unknown_status_is_a_fault() {
    let header = HEADER.replacen("QSN", "QSX", 1);
    assert_eq!(decode_line(&header, &no_mapping()), Err(DecodeError::UnknownStatus));
    let name = NAME.replacen("QLN", "QL?", 1);
    assert_eq!(decode_line(&name, &no_mapping()), Err(DecodeError::UnknownStatus));
}

#[test]
fn dates_must_be_eight_digits_in_order() {
    let bad_first = HEADER.replacen("20241007", "2024100a", 1);
    assert_eq!(decode_line(&bad_first, &no_mapping()), Err(DecodeError::InvalidDate));
    let bad_last = HEADER.replacen("20241013", "        ", 1);
    assert_eq!(decode_line(&bad_last, &no_mapping()), Err(DecodeError::InvalidDate));
    let reversed = HEADER.replacen("2024100720241013", "2024101320241007", 1);
    assert_eq!(decode_line(&reversed, &no_mapping()), Err(DecodeError::DateRangeReversed));
    let same_day = HEADER.replacen("2024100720241013", "2024100720241007", 1);
    assert!(decode_line(&same_day, &no_mapping()).is_ok());
}

#[test]
fn status_fault_comes_before_date_fault() {
    let both = HEADER.replacen("QSN", "QSX", 1).replacen("20241007", "2024100a", 1);
    assert_eq!(decode_line(&both, &no_mapping()), Err(DecodeError::UnknownStatus));
}

#[test]
fn unknown_vehicle_type_is_another_category() {
    let freight = HEADER.replacen("Metro   ", "Freight ", 1);
    match decode_line(&freight, &no_mapping()) {
        Ok(Some(Record::JourneyHeader(header))) => assert_eq!(header.category, Category::Other),
        other => panic!("unexpected {:?}", other),
    }
    let rail = HEADER.replacen("Metro   ", "NATIONAL", 1);
    match decode_line(&rail, &no_mapping()) {
        Ok(Some(Record::JourneyHeader(header))) => {
            assert_eq!(header.category, Category::Passenger)
        }
        other => panic!("unexpected {:?}", other),
    }
}

#[test]
fn times_must_be_four_digits() {
    assert_eq!(
        decode_line("QO9400ZZTWSSH1 730   T1  ", &no_mapping()),
        Err(DecodeError::InvalidTime)
    );
    assert_eq!(
        decode_line("QI9400ZZTWCHT20002+003P   T1  ", &no_mapping()),
        Err(DecodeError::InvalidTime)
    );
    assert_eq!(
        decode_line("QI9400ZZTWCHT2xx020003P   T1  ", &no_mapping()),
        Err(DecodeError::InvalidTime)
    );
    assert_eq!(
        decode_line("QT9400ZZTWPLW2004    T1", &no_mapping()),
        Err(DecodeError::InvalidTime)
    );
}

#[test]
fn unknown_activity_flag_is_a_fault() {
    assert_eq!(
        decode_line("QI9400ZZTWCHT200020003X   T1  ", &no_mapping()),
        Err(DecodeError::UnknownActivityFlag)
    );
    for (letter, flag) in [
        ('B', ActivityFlag::Both),
        ('P', ActivityFlag::PickUpOnly),
        ('S', ActivityFlag::SetDownOnly),
        ('N', ActivityFlag::Neither),
    ] {
        let line = format!("QI9400ZZTWCHT200020003{}   T1  ", letter);
        match decode_line(&line, &no_mapping()) {
            Ok(Some(Record::JourneyRecordStop(stop))) => assert_eq!(stop.activity_flag, flag),
            other => panic!("unexpected {:?}", other),
        }
    }
}

#[test]
fn stops_beginning_with_999_are_left_out_before_their_fields_are_read() {
    assert_eq!(decode_line("QO999000000001xxxx   T1  ", &no_mapping()), Ok(None));
    assert_eq!(decode_line("QI999000000001xxxxyyyy?", &no_mapping()), Ok(None));
    assert_eq!(decode_line("QT  999       0040", &no_mapping()), Ok(None));
    let name = NAME.replacen("9400ZZTWSSH1", "999000000001", 1).replacen("QLN", "QL?", 1);
    assert_eq!(decode_line(&name, &no_mapping()), Ok(None));
}

#[test]
fn mapped_identifiers_are_replaced_in_stops_and_dropped_from_names() {
    let mut mapping: AtcoMap<Atco> = AtcoMap::new();
    mapping.insert_if_absent(atco("9400ZZTWSSH1"), atco("9400ZZTWSSH"));
    match decode_line(ORIGIN, &mapping) {
        Ok(Some(Record::JourneyRecordStop(stop))) => {
            assert_eq!(stop.atco_code, atco("9400ZZTWSSH"))
        }
        other => panic!("unexpected {:?}", other),
    }
    match decode_line(INTERMEDIATE, &mapping) {
        Ok(Some(Record::JourneyRecordStop(stop))) => {
            assert_eq!(stop.atco_code, atco("9400ZZTWCHT2"))
        }
        other => panic!("unexpected {:?}", other),
    }
    assert_eq!(decode_line(NAME, &mapping), Ok(None));
}

#[test]
fn decoding_the_same_line_twice_gives_the_same_record() {
    for line in [HEADER, ORIGIN, INTERMEDIATE, DESTINATION, NAME, "QX", "QS"] {
        assert_eq!(decode_line(line, &no_mapping()), decode_line(line, &no_mapping()));
    }
}

#[test]
fn trimmed_values_written_back_into_their_columns_decode_to_themselves() {
    let first = match decode_line(HEADER, &no_mapping()) {
        Ok(Some(Record::JourneyHeader(header))) => header,
        other => panic!("unexpected {:?}", other),
    };
    let days: String =
        first.operating_days.0.iter().map(|d| if *d { '1' } else { '0' }).collect();
    let rebuilt = format!(
        "QS{}{:<4}{:<6}{:04}{:02}{:02}{:04}{:02}{:02}{}  {:<4}      {:<8}",
        "N",
        first.operator,
        first.unique_journey_identifier,
        first.date_runs_from.year,
        first.date_runs_from.month,
        first.date_runs_from.day,
        first.date_runs_to.year,
        first.date_runs_to.month,
        first.date_runs_to.day,
        days,
        first.route_number,
        "metro"
    );
    assert_eq!(decode_line(&rebuilt, &no_mapping()), Ok(Some(Record::JourneyHeader(first))));

    let stop = match decode_line(INTERMEDIATE, &no_mapping()) {
        Ok(Some(Record::JourneyRecordStop(stop))) => stop,
        other => panic!("unexpected {:?}", other),
    };
    let arrival = stop.arrival_time.unwrap().0;
    let departure = stop.departure_time.unwrap().0;
    let rebuilt = format!(
        "QI{:<12}{:02}{:02}{:02}{:02}P",
        stop.atco_code.0,
        arrival / 3600,
        arrival % 3600 / 60,
        departure / 3600,
        departure % 3600 / 60
    );
    assert_eq!(decode_line(&rebuilt, &no_mapping()), Ok(Some(Record::JourneyRecordStop(stop))));
}

#[test]
fn time_is_hours_and_minutes_in_seconds() {
    assert_eq!(SecondsPastMidnight::from_24hr_str("0730"), Some(SecondsPastMidnight(27000)));
    assert_eq!(SecondsPastMidnight::from_24hr_str("0000"), Some(SecondsPastMidnight(0)));
    assert_eq!(SecondsPastMidnight::from_24hr_str("2359"), Some(SecondsPastMidnight(86340)));
    assert_eq!(SecondsPastMidnight::from_24hr_str("2400"), Some(SecondsPastMidnight(86400)));
    assert_eq!(SecondsPastMidnight::from_24hr_str("9999"), Some(SecondsPastMidnight(362340)));
    assert_eq!(SecondsPastMidnight::from_24hr_str("073"), None);
    assert_eq!(SecondsPastMidnight::from_24hr_str("07300"), None);
    assert_eq!(SecondsPastMidnight::from_24hr_str("07:3"), None);
    assert_eq!(SecondsPastMidnight::from_24hr_str(""), None);
    assert_eq!(SecondsPastMidnight::from_24hr_str("\u{0660}730"), None);
}

#[test]
fn operating_days_are_the_columns_marked_with_one() {
    assert_eq!(
        OperatingDays::from_cif_str("1111100").0,
        [true, true, true, true, true, false, false]
    );
    assert_eq!(
        OperatingDays::from_cif_str("0x00011").0,
        [false, false, false, false, false, true, true]
    );
    assert_eq!(OperatingDays::from_cif_str("1").0, [true, false, false, false, false, false, false]);
    assert_eq!(OperatingDays::from_cif_str("").0, [false; 7]);
    assert_eq!(OperatingDays::from_cif_str("000000011").0, [false; 7]);
    let days = OperatingDays::from_cif_str("0100001");
    assert!(days.contains(&Day::Tuesday));
    assert!(days.contains(&Day::Sunday));
    assert!(!days.contains(&Day::Monday));
    assert!(!days.contains(&Day::Saturday));
}

#[test]
fn small_codes_are_read_from_their_letters() {
    assert_eq!(Status::from_str("N"), Ok(Status::New));
    assert_eq!(Status::from_str("D"), Ok(Status::Delete));
    assert_eq!(Status::from_str("R"), Ok(Status::Revise));
    assert_eq!(Status::from_str("n"), Err(()));
    assert_eq!(Status::from_str("NN"), Err(()));
    assert_eq!(Status::from_str(""), Err(()));
    assert!(Status::New.is_operating());
    assert!(Status::Revise.is_operating());
    assert!(!Status::Delete.is_operating());
    assert_eq!(ActivityFlag::from_str("B"), Ok(ActivityFlag::Both));
    assert_eq!(ActivityFlag::from_str("P"), Ok(ActivityFlag::PickUpOnly));
    assert_eq!(ActivityFlag::from_str("S"), Ok(ActivityFlag::SetDownOnly));
    assert_eq!(ActivityFlag::from_str("N"), Ok(ActivityFlag::Neither));
    assert_eq!(ActivityFlag::from_str("X"), Err(()));
    assert_eq!(ActivityFlag::from_str("BP"), Err(()));
    assert_eq!(RecordIdentifier::from_str("QS"), Ok(RecordIdentifier::QS));
    assert_eq!(RecordIdentifier::from_str("QO"), Ok(RecordIdentifier::QO));
    assert_eq!(RecordIdentifier::from_str("QI"), Ok(RecordIdentifier::QI));
    assert_eq!(RecordIdentifier::from_str("QT"), Ok(RecordIdentifier::QT));
    assert_eq!(RecordIdentifier::from_str("QL"), Ok(RecordIdentifier::QL));
    assert_eq!(RecordIdentifier::from_str("QB"), Ok(RecordIdentifier::Other));
    assert_eq!(RecordIdentifier::from_str("QSN"), Ok(RecordIdentifier::Other));
    assert_eq!(RecordIdentifier::from_str(""), Ok(RecordIdentifier::Other));
}

#[test]
fn days_are_read_from_their_capitalised_names() {
    assert_eq!(Day::from_str("Monday"), Ok(Day::Monday));
    assert_eq!(Day::from_str("Tuesday"), Ok(Day::Tuesday));
    assert_eq!(Day::from_str("Wednesday"), Ok(Day::Wednesday));
    assert_eq!(Day::from_str("Thursday"), Ok(Day::Thursday));
    assert_eq!(Day::from_str("Friday"), Ok(Day::Friday));
    assert_eq!(Day::from_str("Saturday"), Ok(Day::Saturday));
    assert_eq!(Day::from_str("Sunday"), Ok(Day::Sunday));
    assert_eq!(Day::from_str("monday"), Err(()));
    assert_eq!(Day::from_str("Monday "), Err(()));
    assert_eq!(Day::from_str(""), Err(()));
    assert_eq!(Day::Monday.number(), 0);
    assert_eq!(Day::Sunday.number(), 6);
}

#[test]
fn transport_modes_are_read_whatever_their_case() {
    assert_eq!(PublicTransportMode::from_str("bus"), Ok(PublicTransportMode::Bus));
    assert_eq!(PublicTransportMode::from_str("  Coach "), Ok(PublicTransportMode::Coach));
    assert_eq!(PublicTransportMode::from_str("FERRY"), Ok(PublicTransportMode::Ferry));
    assert_eq!(PublicTransportMode::from_str("Light Rail"), Ok(PublicTransportMode::LightRail));
    assert_eq!(PublicTransportMode::from_str("LightRai"), Ok(PublicTransportMode::LightRail));
    assert_eq!(PublicTransportMode::from_str("metro"), Ok(PublicTransportMode::Metro));
    assert_eq!(
        PublicTransportMode::from_str("National Rail"),
        Ok(PublicTransportMode::NationalRail)
    );
    assert_eq!(PublicTransportMode::from_str("national"), Ok(PublicTransportMode::NationalRail));
    assert_eq!(PublicTransportMode::from_str("Rail"), Ok(PublicTransportMode::NationalRail));
    assert_eq!(PublicTransportMode::from_str("tram"), Ok(PublicTransportMode::Tram));
    assert_eq!(PublicTransportMode::from_str("Tube"), Ok(PublicTransportMode::Tube));
    assert_eq!(PublicTransportMode::from_str("Subway"), Ok(PublicTransportMode::Tube));
    assert_eq!(
        PublicTransportMode::from_str(" Taxi"),
        Err("Invalid public transport mode:  Taxi".to_string())
    );
    assert_eq!(
        PublicTransportMode::from_str("light  rail"),
        Err("Invalid public transport mode: light  rail".to_string())
    );
}

#[test]
fn identifiers_are_trimmed_of_every_kind_of_white_space() {
    assert_eq!(Atco::from_str("  9100ABC \t"), Ok(atco("9100ABC")));
    assert_eq!(Atco::from_str("\u{a0}91 00\u{2003}\u{3000}"), Ok(atco("91 00")));
    assert_eq!(Atco::from_str("   "), Ok(atco("")));
    assert_eq!(Atco::from_str(""), Ok(atco("")));
    assert!(atco("9990").starts_with_999());
    assert!(atco("999").starts_with_999());
    assert!(!atco("99").starts_with_999());
    assert!(!atco("9199").starts_with_999());
    let mut mapping: AtcoMap<Atco> = AtcoMap::new();
    mapping.insert_if_absent(atco("A"), atco("B"));
    assert_eq!(Atco::from_mapped_str(" A ", &mapping), Some(atco("B")));
    assert_eq!(Atco::from_mapped_str("C", &mapping), Some(atco("C")));
    assert_eq!(Atco::from_mapped_str(" 999C", &mapping), None);
}

#[test]
fn text_is_cut_at_line_feeds_without_its_carriage_returns() {
    assert_eq!(lines_of_text("a\r\nb\r\n"), vec!["a".to_string(), "b".to_string()]);
    assert_eq!(lines_of_text("a\nb"), vec!["a".to_string(), "b".to_string()]);
    assert_eq!(lines_of_text("a\n\nb\n"), vec!["a".to_string(), "".to_string(), "b".to_string()]);
    assert_eq!(lines_of_text("a\n\n"), vec!["a".to_string(), "".to_string()]);
    assert_eq!(lines_of_text(""), Vec::<String>::new());
    assert_eq!(lines_of_text("\r"), Vec::<String>::new());
    assert_eq!(lines_of_text("\n"), vec!["".to_string()]);
    assert_eq!(lines_of_text("a\rb"), vec!["ab".to_string()]);
}

#[test]
fn parse_keeps_the_order_of_the_lines_and_counts_the_faults() {
    let text = format!(
        "ATCO-CIF0510\r\n{}\r\n{}\r\nQIbroken\r\n{}\r\nQS\r\n{}\r\n{}\r\n",
        HEADER, ORIGIN, INTERMEDIATE, DESTINATION, NAME
    );
    let outcome = parse(&text, &no_mapping());
    assert_eq!(outcome.malformed_lines, 2);
    let expected: Vec<Record> = [HEADER, ORIGIN, INTERMEDIATE, DESTINATION, NAME]
        .iter()
        .map(|line| decode_line(line, &no_mapping()).unwrap().unwrap())
        .collect();
    assert_eq!(outcome.records, expected);
    let empty = parse("", &no_mapping());
    assert_eq!(empty.records, Vec::<Record>::new());
    assert_eq!(empty.malformed_lines, 0);
}

#[test]
fn assemble_keeps_records_in_place_and_counts_faults() {
    let first = decode_line(ORIGIN, &no_mapping()).unwrap().unwrap();
    let second = decode_line(DESTINATION, &no_mapping()).unwrap().unwrap();
    let outcome = assemble(vec![
        Err(DecodeError::TooShort),
        Ok(Some(first.clone())),
        Ok(None),
        Err(DecodeError::InvalidTime),
        Ok(Some(second.clone())),
        Err(DecodeError::UnknownStatus),
    ]);
    assert_eq!(outcome.records, vec![first, second]);
    assert_eq!(outcome.malformed_lines, 3);
}
