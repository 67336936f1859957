use chrono::{Datelike, NaiveDate};
use std::rc::Rc;
use tlt_stops::localtime::{local_seconds_to_utc_iso, seconds_from_midnight_to_utc_iso};
use tlt_stops::models::{Arrival, ArrivalTable, StopArrival, StopData, StopMap};
use tlt_stops::services::ParsingUpstreamError;
use tlt_stops::str_utils::{
    extract_arrival_data, extract_arrival_list_data, extract_arrival_stop_data_from_line,
    extract_stop_arrival_list_data, insert_arrival, parse_block,
};

fn day(year: i32, month: u32, date: u32) -> i32 {
    NaiveDate::from_ymd_opt(year, month, date).unwrap().num_days_from_ce()
}

fn known_stops() -> StopMap {
    let mut stops = StopMap::new();
    for (id, siri, name) in [("1001", "5001", "Viru"), ("1002", "5002", "Kopli")] {
        let stop = Rc::new(StopData {
            id: id.to_string(),
            siri_id: siri.to_string(),
            name: Rc::new(name.to_string()),
        });
        stops.insert(id.to_string(), Rc::clone(&stop));
        stops.insert(siri.to_string(), stop);
    }
    stops
}

fn invalid(message: &str) -> ParsingUpstreamError {
    ParsingUpstreamError::Error(message.to_string())
}

#[test]
fn summer_time_is_three_hours_ahead_of_utc() {
    assert_eq!(
        local_seconds_to_utc_iso(day(2025, 6, 15), 12 * 3600),
        Ok("2025-06-15T09:00:00+00:00".to_string())
    );
}

#[test]
fn winter_time_is_two_hours_ahead_of_utc() {
    assert_eq!(
        local_seconds_to_utc_iso(day(2025, 1, 10), 8 * 3600 + 61),
        Ok("2025-01-10T06:01:01+00:00".to_string())
    );
    assert_eq!(local_seconds_to_utc_iso(day(2025, 1, 10), 0), Ok("2025-01-09T22:00:00+00:00".to_string()));
}

#[test]
fn next_day_wraparound() {
    assert_eq!(
        local_seconds_to_utc_iso(day(2025, 6, 15), 90000),
        Ok("2025-06-15T22:00:00+00:00".to_string())
    );
    assert_eq!(
        local_seconds_to_utc_iso(day(2025, 6, 15), 90000),
        local_seconds_to_utc_iso(day(2025, 6, 16), 3600)
    );
    assert_eq!(
        local_seconds_to_utc_iso(day(2025, 12, 31), 86400),
        Ok("2025-12-31T22:00:00+00:00".to_string())
    );
}

#[test]
fn seconds_of_two_days_or_more_wrap_to_the_next_day() {
    assert_eq!(
        local_seconds_to_utc_iso(day(2025, 1, 15), 172800),
        Ok("2025-01-15T22:00:00+00:00".to_string())
    );
    assert_eq!(
        local_seconds_to_utc_iso(day(2025, 6, 15), 2 * 86400 + 3600),
        local_seconds_to_utc_iso(day(2025, 6, 16), 3600)
    );
    assert_eq!(
        local_seconds_to_utc_iso(day(2025, 6, 15), 2 * 86400 - 1),
        Ok("2025-06-16T20:59:59+00:00".to_string())
    );
    assert_eq!(
        local_seconds_to_utc_iso(day(2025, 6, 15), u32::MAX),
        local_seconds_to_utc_iso(day(2025, 6, 16), u32::MAX % 86400)
    );
}

#[test]
fn dst_ambiguous_time_resolves_to_the_earlier_instant() {
    assert_eq!(
        local_seconds_to_utc_iso(day(2025, 10, 26), 3 * 3600 + 1800),
        Ok("2025-10-26T00:30:00+00:00".to_string())
    );
    assert_eq!(
        local_seconds_to_utc_iso(day(2025, 10, 26), 2 * 3600 + 1800),
        Ok("2025-10-25T23:30:00+00:00".to_string())
    );
    assert_eq!(
        local_seconds_to_utc_iso(day(2025, 10, 26), 4 * 3600 + 1800),
        Ok("2025-10-26T02:30:00+00:00".to_string())
    );
}

#[test]
fn dst_ambiguous_time_on_the_next_day() {
    assert_eq!(
        local_seconds_to_utc_iso(day(2025, 10, 25), 86400 + 3 * 3600),
        Ok("2025-10-26T00:00:00+00:00".to_string())
    );
}

#[test]
fn dst_skipped_time_is_an_error() {
    assert_eq!(
        local_seconds_to_utc_iso(day(2025, 3, 30), 3 * 3600 + 1800),
        Err("Local time does not exist in Tallinn today (DST gap)")
    );
    assert_eq!(
        local_seconds_to_utc_iso(day(2025, 3, 30), 2 * 3600 + 3599),
        Ok("2025-03-30T00:59:59+00:00".to_string())
    );
    assert_eq!(
        local_seconds_to_utc_iso(day(2025, 3, 30), 4 * 3600),
        Ok("2025-03-30T01:00:00+00:00".to_string())
    );
}

#[test]
fn date_out_of_range_is_an_overflow() {
    assert_eq!(local_seconds_to_utc_iso(i32::MAX, 86400), Err("date overflow"));
    assert_eq!(local_seconds_to_utc_iso(i32::MAX, 0), Err("date overflow"));
    assert_eq!(local_seconds_to_utc_iso(i32::MIN, 0), Err("date overflow"));
}

#[test]
fn conversion_for_today_gives_a_time_of_today_or_fails_in_a_gap() {
    match seconds_from_midnight_to_utc_iso(12 * 3600) {
        Ok(time) => {
            assert_eq!(time.len(), "2025-06-15T09:00:00+00:00".len());
            assert!(time.ends_with(":00:00+00:00"));
        }
        Err(message) => panic!("noon exists on every day: {}", message),
    }
    let next_midnight = seconds_from_midnight_to_utc_iso(2 * 86400 + 12 * 3600);
    assert!(next_midnight.unwrap().ends_with(":00:00+00:00"));
}

#[test]
fn entry_classification() {
    let low = extract_arrival_data(b"bus,12,43200,0,0,0,Z", day(2025, 6, 15)).unwrap();
    assert_eq!(
        low,
        StopArrival {
            number: "12".to_string(),
            route_type: "bus".to_string(),
            arrivals: Arrival::LowEntry("2025-06-15T09:00:00+00:00".to_string()),
        }
    );
    assert!(low.arrivals.is_low_entry());
    assert_eq!(low.arrivals.time(), "2025-06-15T09:00:00+00:00");
    for code in ["A", "", "z", "ZZ", " Z", "Z ", "\u{17d}"] {
        let line = format!("bus,12,43200,0,0,0,{},tail", code);
        let regular = extract_arrival_data(line.as_bytes(), day(2025, 6, 15)).unwrap();
        assert_eq!(regular.arrivals, Arrival::RegularEntry("2025-06-15T09:00:00+00:00".to_string()));
        assert!(!regular.arrivals.is_low_entry());
    }
    let tail = extract_arrival_data(b"bus,12,43200,0,0,0,Z,tail,more", day(2025, 6, 15)).unwrap();
    assert!(tail.arrivals.is_low_entry());
}

#[test]
fn arrival_line_with_invalid_bytes_in_the_entry_code_is_regular() {
    let regular = extract_arrival_data(b"bus,12,43200,0,0,0,\xff", day(2025, 6, 15)).unwrap();
    assert!(!regular.arrivals.is_low_entry());
}

#[test]
fn arrival_line_that_ends_early_is_invalid() {
    let today = day(2025, 6, 15);
    assert_eq!(extract_arrival_data(b"", today), Err(invalid("invalid arrival data1")));
    assert_eq!(extract_arrival_data(b"bus", today), Err(invalid("invalid arrival data1")));
    assert_eq!(extract_arrival_data(b"bus,12", today), Err(invalid("invalid arrival data3")));
    assert_eq!(extract_arrival_data(b"bus,12,43200", today), Err(invalid("invalid arrival data3")));
    assert_eq!(extract_arrival_data(b"bus,12,43200,0,0,0", today), Err(invalid("invalid arrival data3")));
    assert!(extract_arrival_data(b"bus,12,43200,0,0,0,", today).is_ok());
}

#[test]
fn arrival_line_with_a_bad_time_is_malformed() {
    let today = day(2025, 6, 15);
    assert_eq!(extract_arrival_data(b"bus,12,noon,0,0,0,Z", today), Err(invalid("incorrect arrival time")));
    assert_eq!(extract_arrival_data(b"bus,12,,0,0,0,Z", today), Err(invalid("incorrect arrival time")));
    assert_eq!(extract_arrival_data(b"bus,12,-5", today), Err(invalid("incorrect arrival time")));
    assert_eq!(extract_arrival_data(b"bus,12,\xff,0,0,0,Z", today), Err(invalid("incorrect arrival time")));
    assert_eq!(
        extract_arrival_data(b"bus,12,12600,0,0,0,Z", day(2025, 3, 30)),
        Err(invalid("Local time does not exist in Tallinn today (DST gap)"))
    );
    assert_eq!(extract_arrival_data(b"bus,12,0,0,0,0,Z", i32::MAX), Err(invalid("date overflow")));
}

#[test]
fn arrival_line_with_undecodable_text_fails_as_undecodable() {
    let today = day(2025, 6, 15);
    assert_eq!(extract_arrival_data(b"\xff,12,43200,0,0,0,Z", today), Err(ParsingUpstreamError::Utf8));
    assert_eq!(extract_arrival_data(b"bus,\xff,43200,0,0,0,Z", today), Err(ParsingUpstreamError::Utf8));
    assert_eq!(extract_arrival_data(b"\xff", today), Err(ParsingUpstreamError::Utf8));
}

#[test]
fn arrival_line_of_the_day_after_next_is_taken_modulo_a_day() {
    let line = extract_arrival_data(b"bus,12,172800,0,0,0,Z", day(2025, 1, 15)).unwrap();
    assert_eq!(line.arrivals.time(), "2025-01-15T22:00:00+00:00");
}

#[test]
fn arrival_lines_are_parsed_in_order_and_empty_lines_skipped() {
    let results = extract_arrival_list_data(b"bus,12,43200,0,0,0,Z\n\ntram,3,bad\ntram,3,43260,0,0,0,A", day(2025, 6, 15));
    assert_eq!(results.len(), 3);
    assert_eq!(results[0].as_ref().unwrap().number, "12");
    assert_eq!(results[1], Err(invalid("incorrect arrival time")));
    assert_eq!(
        results[2].as_ref().unwrap().arrivals,
        Arrival::RegularEntry("2025-06-15T09:01:00+00:00".to_string())
    );
    assert_eq!(extract_arrival_list_data(b"", day(2025, 6, 15)).len(), 0);
    assert_eq!(extract_arrival_list_data(b"\n\n", day(2025, 6, 15)).len(), 0);
}

#[test]
fn block_groups_departures_by_type_and_number() {
    let block = b"stop,5001\nbus,12,43200,0,0,0,Z\ntram,3,43260,0,0,0,A\nbus,12,43320,0,0,0,A\nbus,5,43380,0,0,0,Z\n";
    let arrivals = extract_stop_arrival_list_data(block, &known_stops(), day(2025, 6, 15)).unwrap();
    assert_eq!(arrivals.id, "5001");
    assert_eq!(arrivals.name, "Viru");
    assert_eq!(arrivals.arrivals.len(), 2);
    assert_eq!(arrivals.arrivals.key_at(0), "bus");
    assert_eq!(arrivals.arrivals.key_at(1), "tram");
    let bus = arrivals.arrivals.get("bus").unwrap();
    assert_eq!(bus.key_at(0), "12");
    assert_eq!(bus.key_at(1), "5");
    assert_eq!(
        bus.get("12"),
        Some(&vec![
            Arrival::LowEntry("2025-06-15T09:00:00+00:00".to_string()),
            Arrival::RegularEntry("2025-06-15T09:02:00+00:00".to_string()),
        ])
    );
    assert_eq!(
        arrivals.arrivals.get("tram").unwrap().get("3"),
        Some(&vec![Arrival::RegularEntry("2025-06-15T09:01:00+00:00".to_string())])
    );
}

#[test]
fn block_siri_id_is_everything_after_the_first_comma() {
    let mut stops = known_stops();
    stops.insert(
        "50,01".to_string(),
        Rc::new(StopData { id: "x".to_string(), siri_id: "50,01".to_string(), name: Rc::new("Odd".to_string()) }),
    );
    let arrivals = extract_stop_arrival_list_data(b"stop,50,01\n", &stops, day(2025, 6, 15)).unwrap();
    assert_eq!(arrivals.id, "50,01");
    assert_eq!(arrivals.name, "Odd");
    assert!(arrivals.arrivals.is_empty());
}

#[test]
fn block_failures() {
    let stops = known_stops();
    let today = day(2025, 6, 15);
    assert_eq!(extract_stop_arrival_list_data(b"stop,5001", &stops, today), Err(invalid("invalid arrival data4")));
    assert_eq!(extract_stop_arrival_list_data(b"", &stops, today), Err(invalid("invalid arrival data4")));
    assert_eq!(extract_stop_arrival_list_data(b"stop 5001\n", &stops, today), Err(invalid("invalid arrival data5")));
    assert_eq!(extract_stop_arrival_list_data(b"stop,7777\n", &stops, today), Err(invalid("invalid arrival data6")));
    assert_eq!(extract_stop_arrival_list_data(b"stop,\xff\n", &stops, today), Err(ParsingUpstreamError::Utf8));
    assert_eq!(
        extract_stop_arrival_list_data(b"stop,5001\nbus,12\n", &stops, today),
        Err(invalid("invalid arrival data3"))
    );
    assert_eq!(
        extract_stop_arrival_list_data(b"stop,7777\nbus,12,x\nbus\n", &stops, today),
        Err(invalid("incorrect arrival time"))
    );
}

#[test]
fn blocks_of_a_response() {
    let stops = known_stops();
    let raw = b"stop,5001\nbus,12,43200,0,0,0,Z\nstop,5002\nstop,7777\nbus,1,1,0,0,0,A\nstop,5001";
    let results = extract_arrival_stop_data_from_line(raw, &stops, day(2025, 6, 15));
    assert_eq!(results.len(), 2);
    assert_eq!(results[0].as_ref().unwrap().id, "5001");
    assert_eq!(results[1], Err(invalid("invalid arrival data6")));
    assert_eq!(extract_arrival_stop_data_from_line(b"", &stops, day(2025, 6, 15)).len(), 0);
}

#[test]
fn insert_arrival_appends_to_the_list_of_its_route() {
    let mut table = ArrivalTable::new();
    for (number, time) in [("1", "a"), ("2", "b"), ("1", "c")] {
        insert_arrival(
            &mut table,
            StopArrival {
                number: number.to_string(),
                route_type: "bus".to_string(),
                arrivals: Arrival::RegularEntry(time.to_string()),
            },
        );
    }
    let bus = table.get("bus").unwrap();
    assert_eq!(bus.len(), 2);
    assert_eq!(
        bus.get("1"),
        Some(&vec![Arrival::RegularEntry("a".to_string()), Arrival::RegularEntry("c".to_string())])
    );
    assert_eq!(bus.get("2"), Some(&vec![Arrival::RegularEntry("b".to_string())]));
}

#[test]
fn fragment_is_no_block() {
    let stops = known_stops();
    assert!(parse_block(b"stop,5001", &stops, day(2025, 6, 15)).is_none());
    assert!(parse_block(b"", &stops, day(2025, 6, 15)).is_none());
    let parsed = parse_block(b"stop,5001\n", &stops, day(2025, 6, 15)).unwrap().unwrap();
    assert_eq!(parsed.name, "Viru");
    assert_eq!(
        parse_block(b"stop,7777\n", &stops, day(2025, 6, 15)),
        Some(Err(invalid("invalid arrival data6")))
    );
}

#[test]
fn empty_lines_of_a_block_are_passed_over() {
    let block = b"stop,5001\n\nbus,12,43200,0,0,0,Z\n\n\ntram,3,43260,0,0,0,A";
    let arrivals = extract_stop_arrival_list_data(block, &known_stops(), day(2025, 6, 15)).unwrap();
    assert_eq!(arrivals.arrivals.len(), 2);
}
