use std::rc::Rc;
use tlt_stops::lookup::{
    directions_of_route, routes_of_type, stop_responses, stops_of_direction, LookupError,
};
use tlt_stops::models::{RouteMap, StopData, StopMap, StopResponse};
use tlt_stops::str_utils::{extract_route_data_from_buffer, LastRouteData};

fn routes() -> RouteMap {
    let feed = b"header\n2;;;bus;;;;;;;Balti jaam;;;1001,1002\n;;;;;;;;;;Kopli;;;1002,1001\n1;;;bus;;;;;;;A+B;;;7\n3;;;tram;;;;;;;Tondi;;;3001\n";
    extract_route_data_from_buffer(feed, RouteMap::new(), LastRouteData::default(), 0, false).0
}

fn texts(items: &[&str]) -> Vec<String> {
    items.iter().map(|s| s.to_string()).collect()
}

#[test]
fn routes_of_a_type_in_feed_order() {
    assert_eq!(routes_of_type(&routes(), "bus"), Ok(texts(&["2", "1"])));
    assert_eq!(routes_of_type(&routes(), "tram"), Ok(texts(&["3"])));
    assert_eq!(routes_of_type(&routes(), "ferry"), Err(LookupError::TypeNotFound));
}

#[test]
fn directions_of_a_route_in_feed_order() {
    assert_eq!(directions_of_route(&routes(), "bus", "2"), Ok(texts(&["Balti jaam", "Kopli"])));
    assert_eq!(directions_of_route(&routes(), "bus", "9"), Err(LookupError::RouteNotFound));
    assert_eq!(directions_of_route(&routes(), "ferry", "2"), Err(LookupError::TypeNotFound));
}

#[test]
fn stops_of_a_direction() {
    let routes = routes();
    assert_eq!(stops_of_direction(&routes, "bus", "2", "Kopli"), Ok(&texts(&["1002", "1001"])));
    assert_eq!(stops_of_direction(&routes, "bus", "2", "Balti%20jaam"), Ok(&texts(&["1001", "1002"])));
    assert_eq!(stops_of_direction(&routes, "bus", "1", "A+B"), Ok(&texts(&["7"])));
    assert_eq!(stops_of_direction(&routes, "bus", "1", "A%2BB"), Ok(&texts(&["7"])));
}

#[test]
fn lookup_failures_come_in_order() {
    let routes = routes();
    assert_eq!(stops_of_direction(&routes, "ferry", "9", "%FF"), Err(LookupError::TypeNotFound));
    assert_eq!(stops_of_direction(&routes, "bus", "9", "%FF"), Err(LookupError::RouteNotFound));
    assert_eq!(stops_of_direction(&routes, "bus", "2", "%FF"), Err(LookupError::InvalidDirection));
    assert_eq!(stops_of_direction(&routes, "bus", "2", ""), Err(LookupError::InvalidDirection));
    assert_eq!(stops_of_direction(&routes, "bus", "2", "Balti+jaam"), Err(LookupError::DirectionNotFound));
    assert_eq!(stops_of_direction(&routes, "bus", "2", "kopli"), Err(LookupError::DirectionNotFound));
}

#[test]
fn lookup_error_messages_and_statuses() {
    assert_eq!(LookupError::TypeNotFound.message(), "type not found");
    assert_eq!(LookupError::RouteNotFound.message(), "route number not found");
    assert_eq!(LookupError::InvalidDirection.message(), "invalid direction");
    assert_eq!(LookupError::DirectionNotFound.message(), "direction not found");
    assert_eq!(LookupError::TypeNotFound.status(), 404);
    assert_eq!(LookupError::RouteNotFound.status(), 404);
    assert_eq!(LookupError::InvalidDirection.status(), 400);
    assert_eq!(LookupError::DirectionNotFound.status(), 404);
}

#[test]
fn stops_are_listed_with_their_names() {
    let mut stops = StopMap::new();
    stops.insert(
        "1001".to_string(),
        Rc::new(StopData { id: "1001".to_string(), siri_id: "5001".to_string(), name: Rc::new("Viru".to_string()) }),
    );
    let ids = texts(&["1002", "1001"]);
    assert_eq!(
        stop_responses(&ids, Some(&stops)),
        vec![
            StopResponse("1002".to_string(), "Can't resolve stop name".to_string()),
            StopResponse("1001".to_string(), "Viru".to_string()),
        ]
    );
    assert_eq!(
        stop_responses(&ids, None),
        vec![
            StopResponse("1002".to_string(), "Can't resolve stop name".to_string()),
            StopResponse("1001".to_string(), "Can't resolve stop name".to_string()),
        ]
    );
    assert_eq!(stop_responses(&Vec::new(), Some(&stops)), Vec::new());
}
