//! Lookups in the route index: the routes of a transport type, the
//! directions of a route, and the stops of a direction with their names.

use crate::models::{RouteGroupView, RouteMap, RouteMapView, StopMap, StopMapView, StopResponse};
use crate::ordered::{assoc_get, assoc_keys};
use crate::services::TransportService;
use vstd::prelude::*;

verus! {

/// Why a lookup in the route index found nothing.
#[derive(Debug, Clone, Copy, PartialEq, Eq)]
pub enum LookupError {
    /// The index has no such transport type.
    TypeNotFound,
    /// The transport type has no route with that number.
    RouteNotFound,
    /// The direction name does not decode, or decodes to nothing.
    InvalidDirection,
    /// The route has no such direction.
    DirectionNotFound,
}

impl LookupError {
    /// The message for the client.
    pub fn message(&self) -> (m: &'static str)
        ensures
            m@ == match self {
                LookupError::TypeNotFound => "type not found"@,
                LookupError::RouteNotFound => "route number not found"@,
                LookupError::InvalidDirection => "invalid direction"@,
                LookupError::DirectionNotFound => "direction not found"@,
            },
    {
        match self {
            LookupError::TypeNotFound => "type not found",
            LookupError::RouteNotFound => "route number not found",
            LookupError::InvalidDirection => "invalid direction",
            LookupError::DirectionNotFound => "direction not found",
        }
    }

    /// The HTTP status for the client: 400 for a direction that is no name,
    /// 404 for what is not there.
    pub fn status(&self) -> (s: u16)
        ensures
            s == if self is InvalidDirection {
                400u16
            } else {
                404u16
            },
    {
        match self {
            LookupError::InvalidDirection => 400,
            _ => 404,
        }
    }
}

/// The name shown for a stop that the stop index does not know.
pub open spec fn unresolved_name() -> Seq<char> {
    "Can't resolve stop name"@
}

/// The text that a percent-encoded text decodes to, or `None` when what it
/// decodes to is not valid UTF-8.
pub uninterp spec fn url_decoded(data: Seq<char>) -> Option<Seq<char>>;

/// `urlencoding::decode`: the percent-decoded text, when the decoded bytes
/// are valid UTF-8.
#[verifier::external_body]
fn url_decode(data: &str) -> (r: Option<String>)
    ensures
        r.deep_view() == url_decoded(data@),
{
    match urlencoding::decode(data) {
        Ok(text) => Some(text.into_owned()),
        Err(_) => None,
    }
}

/// The group of a route, by transport type and route number.
pub open spec fn route_group(m: RouteMapView, route_type: Seq<char>, number: Seq<char>) -> Result<
    RouteGroupView,
    LookupError,
> {
    match assoc_get(m, route_type) {
        None => Err(LookupError::TypeNotFound),
        Some(routes) => match assoc_get(routes, number) {
            None => Err(LookupError::RouteNotFound),
            Some(group) => Ok(group),
        },
    }
}

/// The stops of a direction of a route. The direction name is what `decoded`
/// holds, the outcome of percent-decoding it: it must be there and not
/// empty. The type is looked up first, then the number, then the name is
/// judged, then the direction is looked up.
pub open spec fn direction_stops(
    m: RouteMapView,
    route_type: Seq<char>,
    number: Seq<char>,
    decoded: Option<Seq<char>>,
) -> Result<Seq<Seq<char>>, LookupError> {
    match route_group(m, route_type, number) {
        Err(e) => Err(e),
        Ok(group) => match decoded {
            Some(direction) => if direction.len() > 0 {
                match assoc_get(group.directions, direction) {
                    Some(stops) => Ok(stops),
                    None => Err(LookupError::DirectionNotFound),
                }
            } else {
                Err(LookupError::InvalidDirection)
            },
            None => Err(LookupError::InvalidDirection),
        },
    }
}

/// The route numbers of a transport type, in feed order.
pub fn routes_of_type(route_map: &RouteMap, route_type: &str) -> (r: Result<
    Vec<String>,
    LookupError,
>)
    ensures
        match assoc_get(route_map.deep_view(), route_type@) {
            Some(routes) => r matches Ok(numbers) && numbers.deep_view() == assoc_keys(routes),
            None => r == Err::<Vec<String>, LookupError>(LookupError::TypeNotFound),
        },
{
    match route_map.get(route_type) {
        Some(routes) => Ok(routes.keys()),
        None => Err(LookupError::TypeNotFound),
    }
}

/// The direction names of a route, in feed order.
pub fn directions_of_route(route_map: &RouteMap, route_type: &str, route_number: &str) -> (r:
    Result<Vec<String>, LookupError>)
    ensures
        match route_group(route_map.deep_view(), route_type@, route_number@) {
            Ok(group) => r matches Ok(names) && names.deep_view() == assoc_keys(group.directions),
            Err(e) => r == Err::<Vec<String>, LookupError>(e),
        },
{
    let routes = match route_map.get(route_type) {
        Some(routes) => routes,
        None => {
            return Err(LookupError::TypeNotFound);
        },
    };
    match routes.get(route_number) {
        Some(route) => Ok(route.directions.keys()),
        None => Err(LookupError::RouteNotFound),
    }
}

/// The stop identifiers of a direction of a route, in feed order;
/// `direction_raw` is the direction name as it stands in the request path,
/// percent-encoded.
pub fn stops_of_direction<'a>(
    route_map: &'a RouteMap,
    route_type: &str,
    route_number: &str,
    direction_raw: &str,
) -> (r: Result<&'a Vec<String>, LookupError>)
    ensures
        match direction_stops(
            route_map.deep_view(),
            route_type@,
            route_number@,
            url_decoded(direction_raw@),
        ) {
            Ok(stops) => r matches Ok(found) && found.deep_view() == stops,
            Err(e) => r == Err::<&Vec<String>, LookupError>(e),
        },
{
    let routes = match route_map.get(route_type) {
        Some(routes) => routes,
        None => {
            return Err(LookupError::TypeNotFound);
        },
    };
    let route = match routes.get(route_number) {
        Some(route) => route,
        None => {
            return Err(LookupError::RouteNotFound);
        },
    };
    let direction = match url_decode(direction_raw) {
        Some(direction) => direction,
        None => {
            return Err(LookupError::InvalidDirection);
        },
    };
    if crate::text::is_blank(&direction) {
        return Err(LookupError::InvalidDirection);
    }
    match route.directions.get(direction.as_str()) {
        Some(stops) => Ok(stops),
        None => Err(LookupError::DirectionNotFound),
    }
}

/// The name under which a stop is listed: its name in the stop index, or
/// the name for an unknown stop when the index is not at hand or does not
/// know it.
pub open spec fn listed_name(stops: Option<StopMapView>, id: Seq<char>) -> Seq<char> {
    match stops {
        Some(index) => if index.contains_key(id) {
            index[id].name
        } else {
            unresolved_name()
        },
        None => unresolved_name(),
    }
}

/// Lists stops with their names, in the given order.
pub fn stop_responses(stops: &Vec<String>, stop_map: Option<&StopMap>) -> (r: Vec<StopResponse>)
    ensures
        r@.len() == stops@.len(),
        forall|i: int|
            0 <= i < r@.len() ==> (#[trigger] r@[i]).0@ == stops@[i]@ && r@[i].1@ == listed_name(
                stop_map.deep_view(),
                stops@[i]@,
            ),
{
    let mut listed: Vec<StopResponse> = Vec::new();
    let mut i: usize = 0;
    while i < stops.len()
        invariant
            i <= stops@.len(),
            listed@.len() == i,
            forall|j: int|
                0 <= j < i ==> (#[trigger] listed@[j]).0@ == stops@[j]@ && listed@[j].1@
                    == listed_name(stop_map.deep_view(), stops@[j]@),
        decreases stops@.len() - i,
    {
        let id = stops[i].clone();
        let found = match stop_map {
            Some(index) => TransportService::get_stop_name_by_id(id.as_str(), index),
            None => None,
        };
        let name = match found {
            Some(name) => (*name).clone(),
            None => "Can't resolve stop name".to_owned(),
        };
        listed.push(StopResponse(id, name));
        i = i + 1;
    }
    listed
}

} // verus!
