use std::rc::Rc;
use tlt_stops::models::{StopData, StopMap};
use tlt_stops::services::TransportService;
use tlt_stops::str_utils::{
    extract_stop_data_from_buffer, extract_stop_data_from_buffer_fold, extract_stop_data_from_line,
};

fn stop_feed() -> Vec<u8> {
    let mut feed = String::new();
    feed.push_str("ID;SiriID;Lat;Lng;Stops;Name;Info;Street;Area;City\n");
    feed.push_str("1001;5001;;;;Stop Name\n");
    feed.push_str("1002;5002;;;;\n");
    feed.push_str("1003;5003;59437;24745;1001,1002; Balti jaam ;info\n");
    feed.push_str(";5004;;;;Nameless id\n");
    feed.push_str("1005;;;;;No siri\n");
    feed.push_str("1006;5006\n");
    feed.push_str("1007;5007;;;;Pending");
    feed.into_bytes()
}

fn parse_whole(content: &[u8]) -> (StopMap, Option<Rc<String>>, usize, bool) {
    extract_stop_data_from_buffer(content, StopMap::new(), None, 0, false)
}

fn name_of(stops: &StopMap, key: &str) -> Option<String> {
    stops.get(key).map(|stop| stop.name.to_string())
}

const KEYS: [&str; 16] = [
    "1001", "5001", "1002", "5002", "1003", "5003", "5004", "1005", "1006", "5006", "1007", "5007",
    "", "ID", "SiriID", "Stop Name",
];

#[test]
fn double_keying() {
    let stop = extract_stop_data_from_line(b"1001;5001;;;;Stop Name", &None).unwrap();
    assert_eq!(stop.id, "1001");
    assert_eq!(stop.siri_id, "5001");
    assert_eq!(*stop.name, "Stop Name");
    let (stops, _, _, _) = parse_whole(b"header\n1001;5001;;;;Stop Name\n");
    assert_eq!(stops.len(), 2);
    assert_eq!(name_of(&stops, "1001"), Some("Stop Name".to_string()));
    assert_eq!(name_of(&stops, "5001"), Some("Stop Name".to_string()));
    assert_eq!(stops.get("1001").unwrap().siri_id, "5001");
    assert_eq!(stops.get("5001").unwrap().id, "1001");
    assert!(stops.get("Stop Name").is_none());
}

#[test]
fn stop_name_is_carried_forward() {
    let carried = Some(Rc::new("Carried".to_string()));
    let stop = extract_stop_data_from_line(b"1002;5002;;;;", &carried).unwrap();
    assert_eq!(*stop.name, "Carried");
    let stop = extract_stop_data_from_line(b"1002;5002;;;;   ", &carried).unwrap();
    assert_eq!(*stop.name, "Carried");
    let stop = extract_stop_data_from_line(b"1002;5002", &carried).unwrap();
    assert_eq!(*stop.name, "Carried");
    let stop = extract_stop_data_from_line(b"1002;5002;;;;Own", &carried).unwrap();
    assert_eq!(*stop.name, "Own");
}

#[test]
fn stop_without_name_and_without_carried_name_is_dropped() {
    assert_eq!(extract_stop_data_from_line(b"1002;5002;;;;", &None), None);
    assert_eq!(extract_stop_data_from_line(b"1002;5002", &None), None);
}

#[test]
fn stop_without_id_or_siri_id_is_dropped() {
    let carried = Some(Rc::new("Carried".to_string()));
    assert_eq!(extract_stop_data_from_line(b";5004;;;;Name", &carried), None);
    assert_eq!(extract_stop_data_from_line(b"1005;;;;;Name", &carried), None);
    assert_eq!(extract_stop_data_from_line(b"1005; ;;;;Name", &carried), None);
    assert_eq!(extract_stop_data_from_line(b"1005", &carried), None);
    assert_eq!(extract_stop_data_from_line(b"", &carried), None);
}

#[test]
fn stop_with_bad_bytes_is_dropped() {
    let carried = Some(Rc::new("Carried".to_string()));
    assert_eq!(extract_stop_data_from_line(b"\xff;5001;;;;Name", &carried), None);
    assert_eq!(extract_stop_data_from_line(b"1001;\xff;;;;Name", &carried), None);
    assert_eq!(extract_stop_data_from_line(b"1001;5001;;;;\xff", &carried), None);
    assert!(extract_stop_data_from_line(b"1001;5001;\xff;;;Name", &carried).is_some());
}

#[test]
fn stop_fields_are_trimmed() {
    let stop = extract_stop_data_from_line(b" 1003 ; 5003 ;59437;24745;1001,1002; Balti jaam ;info", &None).unwrap();
    assert_eq!(
        *stop,
        StopData { id: "1003".to_string(), siri_id: "5003".to_string(), name: Rc::new("Balti jaam".to_string()) }
    );
}

#[test]
fn stop_index_of_a_feed() {
    let content = stop_feed();
    let (stops, last_name, consumed, skipped) = parse_whole(&content);
    assert!(skipped);
    assert_eq!(consumed, content.len() - "1007;5007;;;;Pending".len());
    assert_eq!(last_name.map(|n| n.to_string()), Some("Balti jaam".to_string()));
    assert_eq!(stops.len(), 8);
    assert_eq!(name_of(&stops, "1001"), Some("Stop Name".to_string()));
    assert_eq!(name_of(&stops, "1002"), Some("Stop Name".to_string()));
    assert_eq!(name_of(&stops, "5002"), Some("Stop Name".to_string()));
    assert_eq!(name_of(&stops, "1003"), Some("Balti jaam".to_string()));
    assert_eq!(name_of(&stops, "1006"), Some("Balti jaam".to_string()));
    assert_eq!(name_of(&stops, "5004"), None);
    assert_eq!(name_of(&stops, "1005"), None);
    assert_eq!(name_of(&stops, "1007"), None);
    assert_eq!(name_of(&stops, "ID"), None);
}

#[test]
fn stop_index_chunk_invariance() {
    let content = stop_feed();
    let whole = parse_whole(&content);
    for cut in 0..=content.len() {
        let state = (Vec::new(), StopMap::new(), None, 0usize, false);
        let state = extract_stop_data_from_buffer_fold(state, content[..cut].to_vec());
        let state = extract_stop_data_from_buffer_fold(state, content[cut..].to_vec());
        assert_eq!(state.0, content);
        assert_eq!(state.1.len(), whole.0.len());
        for key in KEYS {
            assert_eq!(state.1.get(key).map(|s| (**s).clone()), whole.0.get(key).map(|s| (**s).clone()));
        }
        assert_eq!(state.2, whole.1);
        assert_eq!(state.3, whole.2);
        assert_eq!(state.4, whole.3);
    }
}

#[test]
fn stop_index_with_one_byte_chunks() {
    let content = stop_feed();
    let whole = parse_whole(&content);
    let mut state = (Vec::new(), StopMap::new(), None, 0usize, false);
    for byte in content.iter() {
        state = extract_stop_data_from_buffer_fold(state, vec![*byte]);
    }
    assert_eq!(state.1.len(), whole.0.len());
    for key in KEYS {
        assert_eq!(state.1.get(key).map(|s| (**s).clone()), whole.0.get(key).map(|s| (**s).clone()));
    }
    assert_eq!(state.3, whole.2);
}

#[test]
fn stop_name_lookup() {
    let mut stops = StopMap::new();
    let stop = Rc::new(StopData {
        id: "1001".to_string(),
        siri_id: "5001".to_string(),
        name: Rc::new("Viru".to_string()),
    });
    stops.insert("1001".to_string(), Rc::clone(&stop));
    stops.insert("5001".to_string(), stop);
    assert_eq!(TransportService::get_stop_name_by_id("1001", &stops), Some(Rc::new("Viru".to_string())));
    assert_eq!(TransportService::get_stop_name_by_id("5001", &stops), Some(Rc::new("Viru".to_string())));
    assert_eq!(TransportService::get_stop_name_by_id("9", &stops), None);
}

#[test]
fn stop_map_insert_replaces() {
    let mut stops = StopMap::new();
    assert_eq!(stops.len(), 0);
    for name in ["Old", "New"] {
        stops.insert(
            "1".to_string(),
            Rc::new(StopData { id: "1".to_string(), siri_id: "2".to_string(), name: Rc::new(name.to_string()) }),
        );
    }
    assert_eq!(stops.len(), 1);
    assert_eq!(*stops.get("1").unwrap().name, "New");
}
