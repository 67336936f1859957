use tlt_stops::models::{RouteData, RouteMap};
use tlt_stops::str_utils::{
    extract_route_data_from_buffer, extract_route_data_from_buffer_fold,
    extract_route_data_from_line, extract_type_from_buffer, extract_type_from_buffer_fold,
    insert_route, insert_type, LastRouteData,
};

fn texts(items: &[&str]) -> Vec<String> {
    items.iter().map(|s| s.to_string()).collect()
}

fn route_feed() -> Vec<u8> {
    let mut feed = String::new();
    feed.push_str("RouteNum;Authority;City;Transport;Operator;ValidityPeriods;SpecialDates;RouteTag;RouteType;Commercial;RouteName;Weekdays;Streets;RouteStops\n");
    feed.push_str("12;;;bus;;;;;;;Kopli;;;1001,1002,1003\n");
    feed.push_str(";;;;;;;;;;Linnahall;;;2001,2002\n");
    feed.push_str("3;;;tram;;;;;;;Tondi;;;3001\n");
    feed.push_str(";;;;;;;;;;;;;9999\n");
    feed.push_str("5;;;bus;;;;;;;Kopli;;;5001,5002\n");
    feed.push_str("12;;;bus;;;;;;;Kopli;;;7001\n");
    feed.push_str("unterminated;;;bus;;;;;;;Nowhere;;;1");
    feed.into_bytes()
}

fn parse_whole(content: &[u8]) -> (RouteMap, LastRouteData, usize, bool) {
    extract_route_data_from_buffer(content, RouteMap::new(), LastRouteData::default(), 0, false)
}

fn parse_chunked(content: &[u8], cuts: &[usize]) -> (Vec<u8>, RouteMap, LastRouteData, usize, bool) {
    let mut state = (Vec::new(), RouteMap::new(), LastRouteData::default(), 0usize, false);
    let mut start = 0usize;
    for cut in cuts {
        state = extract_route_data_from_buffer_fold(state, content[start..*cut].to_vec());
        start = *cut;
    }
    extract_route_data_from_buffer_fold(state, content[start..].to_vec())
}

#[test]
fn carry_forward_takes_type_and_number_from_the_line_before() {
    let mut last = LastRouteData::default();
    let first = extract_route_data_from_line(b"12;;;bus;;;;;;;Kopli;;;1001,1002,1003", &mut last);
    assert_eq!(
        first,
        Some(RouteData {
            number: "12".to_string(),
            route_type: "bus".to_string(),
            directions: "Kopli".to_string(),
            stops: texts(&["1001", "1002", "1003"]),
        })
    );
    let second = extract_route_data_from_line(b";;;;;;;;;;Linnahall;;;2001,2002", &mut last);
    assert_eq!(
        second,
        Some(RouteData {
            number: "12".to_string(),
            route_type: "bus".to_string(),
            directions: "Linnahall".to_string(),
            stops: texts(&["2001", "2002"]),
        })
    );
}

#[test]
fn carry_forward_without_a_prior_value_yields_no_record() {
    let mut last = LastRouteData::default();
    assert_eq!(extract_route_data_from_line(b";;;;;;;;;;Linnahall;;;2001", &mut last), None);
    assert_eq!(last, LastRouteData::default());
}

#[test]
fn carried_type_is_kept_when_the_number_is_missing() {
    let mut last = LastRouteData::default();
    assert_eq!(extract_route_data_from_line(b";;;bus;;;;;;;Kopli;;;1", &mut last), None);
    assert_eq!(last.last_type, Some("bus".to_string()));
    assert_eq!(last.last_number, None);
}

#[test]
fn route_line_fields_are_trimmed() {
    let mut last = LastRouteData::default();
    let record = extract_route_data_from_line(b" 12 ;;; bus ;;;;;;; Balti jaam ;;;1, 2", &mut last).unwrap();
    assert_eq!(record.number, "12");
    assert_eq!(record.route_type, "bus");
    assert_eq!(record.directions, "Balti jaam");
    assert_eq!(record.stops, texts(&["1", " 2"]));
}

#[test]
fn route_line_without_direction_yields_no_record_but_carries() {
    let mut last = LastRouteData::default();
    assert_eq!(extract_route_data_from_line(b"7;;;tram", &mut last), None);
    assert_eq!(last.last_type, Some("tram".to_string()));
    assert_eq!(last.last_number, Some("7".to_string()));
    assert_eq!(extract_route_data_from_line(b"7;;;tram;;;;;;;  ;;;1", &mut last), None);
}

#[test]
fn route_line_that_ends_before_the_stop_column_has_no_stops() {
    let mut last = LastRouteData::default();
    let record = extract_route_data_from_line(b"7;;;tram;;;;;;;Kopli", &mut last).unwrap();
    assert_eq!(record.stops, Vec::<String>::new());
    let record = extract_route_data_from_line(b"7;;;tram;;;;;;;Kopli;;", &mut last).unwrap();
    assert_eq!(record.stops, Vec::<String>::new());
}

#[test]
fn route_line_with_too_few_columns_or_bad_bytes_is_dropped() {
    let mut last = LastRouteData::default();
    assert_eq!(extract_route_data_from_line(b"", &mut last), None);
    assert_eq!(extract_route_data_from_line(b"12;;bus", &mut last), None);
    assert_eq!(extract_route_data_from_line(b"\xff;;;bus;;;;;;;Kopli;;;1", &mut last), None);
    assert_eq!(extract_route_data_from_line(b"12;;;\xff;;;;;;;Kopli;;;1", &mut last), None);
    assert_eq!(last, LastRouteData::default());
    assert_eq!(extract_route_data_from_line(b"12;;;bus;;;;;;;\xff;;;1", &mut last), None);
    assert_eq!(extract_route_data_from_line(b"12;;;bus;;;;;;;Kopli;;;\xff", &mut last), None);
    assert_eq!(last.last_number, Some("12".to_string()));
}

#[test]
fn route_index_groups_by_type_and_number() {
    let (routes, last, consumed, skipped) = parse_whole(&route_feed());
    assert!(skipped);
    assert_eq!(consumed, route_feed().len() - "unterminated;;;bus;;;;;;;Nowhere;;;1".len());
    assert_eq!(last.last_type, Some("bus".to_string()));
    assert_eq!(last.last_number, Some("12".to_string()));
    assert_eq!(routes.len(), 2);
    assert_eq!(routes.key_at(0), "bus");
    assert_eq!(routes.key_at(1), "tram");
    let bus = routes.get("bus").unwrap();
    assert_eq!(bus.len(), 2);
    assert_eq!(bus.key_at(0), "12");
    assert_eq!(bus.key_at(1), "5");
    let twelve = bus.get("12").unwrap();
    assert_eq!(twelve.number, "12");
    assert_eq!(twelve.route_type, "bus");
    assert_eq!(twelve.directions.len(), 2);
    assert_eq!(twelve.directions.get("Linnahall"), Some(&texts(&["2001", "2002"])));
    let tram = routes.get("tram").unwrap();
    assert_eq!(tram.get("3").unwrap().directions.get("Tondi"), Some(&texts(&["3001"])));
    assert!(routes.get("trolley").is_none());
}

#[test]
fn later_line_overwrites_the_stop_list_of_its_direction() {
    let (routes, _, _, _) = parse_whole(&route_feed());
    let twelve = routes.get("bus").unwrap().get("12").unwrap();
    assert_eq!(twelve.directions.get("Kopli"), Some(&texts(&["7001"])));
    assert_eq!(twelve.directions.key_at(0), "Kopli");
}

#[test]
fn header_line_is_never_parsed() {
    let (routes, _, _, skipped) = parse_whole(b"12;;;bus;;;;;;;Kopli;;;1001\n");
    assert!(skipped);
    assert!(routes.is_empty());
    let (routes, _, consumed, skipped) = parse_whole(b"12;;;bus;;;;;;;Kopli;;;1001");
    assert!(!skipped);
    assert_eq!(consumed, 0);
    assert!(routes.is_empty());
}

#[test]
fn trailing_bytes_without_line_feed_are_not_parsed() {
    let (routes, _, _, _) = parse_whole(&route_feed());
    assert!(routes.get("bus").unwrap().get("unterminated").is_none());
}

#[test]
fn scan_resumes_from_the_given_offset() {
    let content = b"header\n1;;;bus;;;;;;;A;;;1\n2;;;bus;;;;;;;B;;;2\n";
    let (routes, _, consumed, _) =
        extract_route_data_from_buffer(content, RouteMap::new(), LastRouteData::default(), 27, true);
    assert_eq!(consumed, content.len());
    let bus = routes.get("bus").unwrap();
    assert_eq!(bus.len(), 1);
    assert!(bus.get("2").is_some());
}

#[test]
fn chunk_invariance_at_every_cut() {
    let content = route_feed();
    let whole = parse_whole(&content);
    for cut in 0..=content.len() {
        let chunked = parse_chunked(&content, &[cut]);
        assert_eq!(chunked.0, content);
        assert_eq!(chunked.1, whole.0);
        assert_eq!(chunked.2, whole.1);
        assert_eq!(chunked.3, whole.2);
        assert_eq!(chunked.4, whole.3);
    }
}

#[test]
fn chunk_invariance_with_one_byte_chunks() {
    let content = route_feed();
    let whole = parse_whole(&content);
    let cuts: Vec<usize> = (1..content.len()).collect();
    let chunked = parse_chunked(&content, &cuts);
    assert_eq!(chunked.0, content);
    assert_eq!(chunked.1, whole.0);
    assert_eq!(chunked.2, whole.1);
    assert_eq!(chunked.3, whole.2);
    assert_eq!(chunked.4, whole.3);
}

#[test]
fn insert_route_adds_and_replaces() {
    let mut routes = RouteMap::new();
    insert_route(
        &mut routes,
        RouteData {
            number: "1".to_string(),
            route_type: "bus".to_string(),
            directions: "A".to_string(),
            stops: texts(&["1", "2"]),
        },
    );
    insert_route(
        &mut routes,
        RouteData {
            number: "1".to_string(),
            route_type: "bus".to_string(),
            directions: "B".to_string(),
            stops: texts(&["3"]),
        },
    );
    insert_route(
        &mut routes,
        RouteData {
            number: "1".to_string(),
            route_type: "bus".to_string(),
            directions: "A".to_string(),
            stops: texts(&["9"]),
        },
    );
    let group = routes.get("bus").unwrap().get("1").unwrap();
    assert_eq!(group.directions.len(), 2);
    assert_eq!(group.directions.get("A"), Some(&texts(&["9"])));
    assert_eq!(group.directions.get("B"), Some(&texts(&["3"])));
}

#[test]
fn transport_types_are_collected_once_each() {
    let (types, consumed, skipped) = extract_type_from_buffer(&route_feed(), Vec::new(), 0, false);
    assert!(skipped);
    assert_eq!(types, texts(&["bus", "tram"]));
    assert_eq!(consumed, route_feed().len() - "unterminated;;;bus;;;;;;;Nowhere;;;1".len());
}

#[test]
fn transport_type_is_trimmed() {
    let (types, _, _) = extract_type_from_buffer(
        b"h\n1;;; bus ;x\n2;;;;x\n3;;\n4;;;\xff;x\n5;;;bus;x\n6;;; \t ;x\n7;;;tram\n",
        Vec::new(),
        0,
        false,
    );
    assert_eq!(types, texts(&["bus", "tram"]));
}

#[test]
fn transport_types_chunk_invariance() {
    let content = route_feed();
    let whole = extract_type_from_buffer(&content, Vec::new(), 0, false);
    for cut in 0..=content.len() {
        let state = extract_type_from_buffer_fold((Vec::new(), Vec::new(), 0, false), content[..cut].to_vec());
        let state = extract_type_from_buffer_fold(state, content[cut..].to_vec());
        assert_eq!(state.0, content);
        assert_eq!((state.1, state.2, state.3), whole.clone());
    }
}

#[test]
fn insert_type_keeps_first_appearance_order() {
    let mut types: Vec<String> = Vec::new();
    insert_type(&mut types, "tram".to_string());
    insert_type(&mut types, "bus".to_string());
    insert_type(&mut types, "tram".to_string());
    assert_eq!(types, texts(&["tram", "bus"]));
}

#[test]
fn route_index_has_each_key_once() {
    let (routes, _, _, _) = parse_whole(&route_feed());
    let mut types = routes.keys();
    types.sort();
    types.dedup();
    assert_eq!(types.len(), routes.len());
    for by_type in routes.entries.iter() {
        let mut numbers = by_type.value.keys();
        numbers.sort();
        numbers.dedup();
        assert_eq!(numbers.len(), by_type.value.len());
        for by_number in by_type.value.entries.iter() {
            assert_eq!(by_number.value.number, by_number.key);
            assert_eq!(by_number.value.route_type, by_type.key);
            let mut names = by_number.value.directions.keys();
            names.sort();
            names.dedup();
            assert_eq!(names.len(), by_number.value.directions.len());
        }
    }
}

#[test]
fn direction_is_read_from_column_ten_only() {
    let mut last = LastRouteData::default();
    assert!(extract_route_data_from_line(b"12;;;bus;;;;;;;Kopli;;;1001,1002,1003", &mut last).is_some());
    assert_eq!(extract_route_data_from_line(b";;;;;;;;;;;Linnahall;;;2001,2002", &mut last), None);
    assert_eq!(last.last_type, Some("bus".to_string()));
    assert_eq!(last.last_number, Some("12".to_string()));
}
