use connectivity::atco::{Atco, AtcoMap};
use connectivity::encoding::{encode_header, encode_name, encode_record, encode_stop};
use connectivity::records::{
    decode_line, ActivityFlag, Category, Date, JourneyHeader, JourneyRecordStop, OperatingDays,
    Record, SecondsPastMidnight, Status, StopName,
};

fn no_mapping() -> AtcoMap<Atco> {
    AtcoMap::new()
}

fn decoded(line: &str) -> Record {
    decode_line(line, &no_mapping()).unwrap().unwrap()
}

#[test]
fn a_header_is_written_into_its_columns() {
    let header = JourneyHeader {
        status: Status::Revise,
        operator: "NX".to_string(),
        unique_journey_identifier: "3".to_string(),
        date_runs_from: Date { year: 2024, month: 1, day: 7 },
        date_runs_to: Date { year: 2024, month: 10, day: 13 },
        operating_days: OperatingDays([true, false, false, false, false, true, true]),
        route_number: "YEL".to_string(),
        category: Category::Passenger,
    };
    assert_eq!(
        encode_header(&header),
        "QSRNX  3     20240107202410131000011  YEL       bus     "
    );
    let freight = JourneyHeader { category: Category::Other, ..header };
    assert_eq!(
        encode_header(&freight),
        "QSRNX  3     20240107202410131000011  YEL               "
    );
}

#[test]
fn stops_are_written_as_lines_of_their_kind() {
    let mut stop = JourneyRecordStop {
        atco_code: Atco("9400ZZ".to_string()),
        activity_flag: ActivityFlag::PickUpOnly,
        arrival_time: None,
        departure_time: Some(SecondsPastMidnight(7 * 3600 + 5 * 60)),
        is_first_stop: true,
    };
    assert_eq!(encode_stop(&stop), "QO9400ZZ      0705");
    stop.is_first_stop = false;
    stop.arrival_time = Some(SecondsPastMidnight(7 * 3600 + 59));
    stop.activity_flag = ActivityFlag::Both;
    assert_eq!(encode_stop(&stop), "QI9400ZZ      07000705B");
    stop.departure_time = None;
    stop.activity_flag = ActivityFlag::SetDownOnly;
    assert_eq!(encode_stop(&stop), "QT9400ZZ      0700");
    stop.arrival_time = None;
    assert_eq!(encode_stop(&stop), "QT9400ZZ          ");
    stop.arrival_time = Some(SecondsPastMidnight(362340));
    assert_eq!(encode_stop(&stop), "QT9400ZZ      9999");
    stop.arrival_time = Some(SecondsPastMidnight(100 * 3600));
    assert_eq!(encode_stop(&stop), "QT9400ZZ      9960");
}

#[test]
fn a_name_is_written_into_its_columns() {
    let name = StopName {
        status: Status::New,
        atco_code: Atco("9400ZZTWSSH1".to_string()),
        name: "South Shields".to_string(),
        reference: Some(4),
        station_code: None,
    };
    let line = encode_name(&name);
    assert_eq!(line.len(), 63);
    assert_eq!(&line[..28], "QLN9400ZZTWSSH1South Shields");
    assert_eq!(line[28..].trim(), "");
}

#[test]
fn what_was_decoded_is_decoded_again_from_its_own_line() {
    for line in [
        "QSNNXMT3     20241007202410131111100  YEL       Metro           O",
        "QSD  A   B   00000000999999990000000  1 2       freight                 ",
        "QO9400ZZTWSSH10000   T1  ",
        "QO  A B       9999",
        "QI9400ZZTWCHT200020003P   T1  ",
        "QI            01751260N",
        "QT9400ZZTWPLW20040   T1",
        "QLN9400ZZTWSSH1South Shields, (Tyne and Wear Metro Station)     B        ",
        "QLR            ,                                                ",
    ] {
        let first = decoded(line);
        let written = encode_record(&first);
        assert_eq!(decoded(&written), first, "{}", line);
        assert_eq!(encode_record(&decoded(&written)), written, "{}", line);
    }
}

#[test]
fn times_with_sixty_minutes_or_more_are_written_in_another_form_of_the_same_time() {
    let first = decoded("QO9400ZZTWSSH10175");
    let written = encode_record(&first);
    assert_eq!(written, "QO9400ZZTWSSH10215");
    assert_eq!(decoded(&written), first);
}

#[test]
fn a_name_that_a_comma_kept_from_being_trimmed_is_not_read_back() {
    let line = format!("QLN9400ZZTWSSH1{:<48}", ",  Shields ,");
    let first = decoded(&line);
    match &first {
        Record::StopName(name) => assert_eq!(name.name, "  Shields "),
        other => panic!("unexpected {:?}", other),
    }
    match decoded(&encode_record(&first)) {
        Record::StopName(name) => assert_eq!(name.name, "Shields"),
        other => panic!("unexpected {:?}", other),
    }
}
