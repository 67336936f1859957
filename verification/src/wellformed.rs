//! The invariants of the indices, and the proofs that parsing keeps them.
//!
//! In the route index a transport type occurs once, a route number occurs
//! once within its type, a direction name occurs once within its route, and
//! every group carries the type and number under which it is filed. In a
//! stop's table of departures a type occurs once and a number once within
//! its type. In the stop index every stop is filed under its id or under
//! its siri id, and neither is empty. The set of transport types holds no
//! type twice.

use crate::models::{
    ArrivalTableView, ArrivalView, RouteDataView, RouteGroupView, RouteMapView, StopArrivalView,
    StopMapView,
};
use crate::ordered::{
    assoc_get, assoc_has, assoc_put, distinct_keys, key_index, lemma_assoc_put,
    lemma_assoc_put_pairs, lemma_key_index,
};
use crate::str_utils::{
    arrival_line, arrival_table, route_line, route_map_put, route_step, route_stepper, set_put,
    stop_step, stop_stepper, table_put, type_step, type_stepper, LastRouteDataView,
};
use vstd::prelude::*;

verus! {

/// A group filed under `entry.0` within `route_type` is well formed.
pub open spec fn group_wf(route_type: Seq<char>, entry: (Seq<char>, RouteGroupView)) -> bool {
    &&& entry.1.number == entry.0
    &&& entry.1.route_type == route_type
    &&& distinct_keys(entry.1.directions)
}

/// The routes filed under the transport type `entry.0` are well formed.
pub open spec fn routes_wf(entry: (Seq<char>, Seq<(Seq<char>, RouteGroupView)>)) -> bool {
    &&& distinct_keys(entry.1)
    &&& forall|j: int| 0 <= j < entry.1.len() ==> group_wf(entry.0, #[trigger] entry.1[j])
}

/// The route index is well formed.
pub open spec fn route_map_wf(m: RouteMapView) -> bool {
    &&& distinct_keys(m)
    &&& forall|i: int| 0 <= i < m.len() ==> routes_wf(#[trigger] m[i])
}

/// Entering a record keeps the route index well formed.
pub proof fn lemma_route_map_put_wf(m: RouteMapView, r: RouteDataView)
    requires
        route_map_wf(m),
    ensures
        route_map_wf(route_map_put(m, r)),
{
    let ti = key_index(m, r.route_type);
    lemma_key_index(m, r.route_type);
    let routes = match assoc_get(m, r.route_type) {
        Some(routes) => routes,
        None => Seq::empty(),
    };
    assert(routes_wf((r.route_type, routes))) by {
        if assoc_has(m, r.route_type) {
            assert(routes_wf(m[ti]));
        }
    }
    let ni = key_index(routes, r.number);
    lemma_key_index(routes, r.number);
    let group = match assoc_get(routes, r.number) {
        Some(g) => RouteGroupView {
            number: g.number,
            route_type: g.route_type,
            directions: assoc_put(g.directions, r.directions, r.stops),
        },
        None => RouteGroupView {
            number: r.number,
            route_type: r.route_type,
            directions: seq![(r.directions, r.stops)],
        },
    };
    assert(group_wf(r.route_type, (r.number, group))) by {
        if assoc_has(routes, r.number) {
            assert(group_wf(r.route_type, routes[ni]));
            lemma_assoc_put(routes[ni].1.directions, r.directions, r.stops);
        }
    }
    let new_routes = assoc_put(routes, r.number, group);
    lemma_assoc_put(routes, r.number, group);
    lemma_assoc_put_pairs(routes, r.number, group);
    assert(routes_wf((r.route_type, new_routes))) by {
        assert forall|j: int| 0 <= j < new_routes.len() implies group_wf(
            r.route_type,
            #[trigger] new_routes[j],
        ) by {
            if j != ni {
                assert(group_wf(r.route_type, routes[j]));
            }
        }
    }
    let after = assoc_put(m, r.route_type, new_routes);
    lemma_assoc_put(m, r.route_type, new_routes);
    lemma_assoc_put_pairs(m, r.route_type, new_routes);
    assert forall|i: int| 0 <= i < after.len() implies routes_wf(#[trigger] after[i]) by {
        if i != ti {
            assert(routes_wf(m[i]));
        }
    }
}

/// Parsing lines keeps the route index well formed.
pub proof fn lemma_route_fold_wf(lines: Seq<Seq<u8>>, st: (RouteMapView, LastRouteDataView))
    requires
        route_map_wf(st.0),
    ensures
        route_map_wf(lines.fold_left(st, route_stepper()).0),
    decreases lines.len(),
{
    if lines.len() > 0 {
        lemma_route_fold_wf(lines.drop_last(), st);
        let before = lines.drop_last().fold_left(st, route_stepper());
        assert(lines.fold_left(st, route_stepper()) == route_step(before, lines.last()));
        let record = route_line(lines.last(), before.1).1;
        if record is Some {
            lemma_route_map_put_wf(before.0, record->0);
        }
    }
}

/// A table of departures is well formed.
pub open spec fn table_wf(t: ArrivalTableView) -> bool {
    &&& distinct_keys(t)
    &&& forall|i: int| 0 <= i < t.len() ==> distinct_keys((#[trigger] t[i]).1)
}

/// Entering a departure keeps the table well formed.
pub proof fn lemma_table_put_wf(t: ArrivalTableView, a: StopArrivalView)
    requires
        table_wf(t),
    ensures
        table_wf(table_put(t, a)),
{
    let ti = key_index(t, a.route_type);
    lemma_key_index(t, a.route_type);
    let routes = match assoc_get(t, a.route_type) {
        Some(routes) => routes,
        None => Seq::empty(),
    };
    assert(distinct_keys(routes)) by {
        if assoc_has(t, a.route_type) {
            assert(distinct_keys(t[ti].1));
        }
    }
    let list = match assoc_get(routes, a.number) {
        Some(list) => list,
        None => Seq::<ArrivalView>::empty(),
    };
    let new_routes = assoc_put(routes, a.number, list.push(a.arrivals));
    lemma_assoc_put(routes, a.number, list.push(a.arrivals));
    let after = assoc_put(t, a.route_type, new_routes);
    lemma_assoc_put(t, a.route_type, new_routes);
    lemma_assoc_put_pairs(t, a.route_type, new_routes);
    assert forall|i: int| 0 <= i < after.len() implies distinct_keys((#[trigger] after[i]).1) by {
        if i != ti {
            assert(distinct_keys(t[i].1));
        }
    }
}

/// The table that the lines of a block's body build is well formed.
pub proof fn lemma_arrival_table_wf(lines: Seq<Seq<u8>>, day: int)
    ensures
        arrival_table(lines, day) matches Ok(t) ==> table_wf(t),
    decreases lines.len(),
{
    if lines.len() > 0 {
        lemma_arrival_table_wf(lines.drop_last(), day);
        match arrival_table(lines.drop_last(), day) {
            Ok(t) => if lines.last().len() > 0 {
                match arrival_line(lines.last(), day) {
                    Ok(a) => {
                        lemma_table_put_wf(t, a);
                    },
                    Err(_) => {},
                }
            },
            Err(_) => {},
        }
    }
}

/// Every stop of the index is filed under its id or under its siri id, and
/// neither of the two is empty.
pub open spec fn stop_map_wf(m: StopMapView) -> bool {
    forall|key: Seq<char>| #[trigger]
        m.contains_key(key) ==> {
            &&& m[key].id == key || m[key].siri_id == key
            &&& m[key].id.len() > 0
            &&& m[key].siri_id.len() > 0
        }
}

/// Parsing lines keeps the stop index well formed.
pub proof fn lemma_stop_fold_wf(lines: Seq<Seq<u8>>, st: (StopMapView, Option<Seq<char>>))
    requires
        stop_map_wf(st.0),
    ensures
        stop_map_wf(lines.fold_left(st, stop_stepper()).0),
    decreases lines.len(),
{
    if lines.len() > 0 {
        lemma_stop_fold_wf(lines.drop_last(), st);
        let before = lines.drop_last().fold_left(st, stop_stepper());
        assert(lines.fold_left(st, stop_stepper()) == stop_step(before, lines.last()));
    }
}

/// Parsing lines keeps the set of transport types free of repetitions.
pub proof fn lemma_type_fold_wf(lines: Seq<Seq<u8>>, set: Seq<Seq<char>>)
    requires
        set.no_duplicates(),
    ensures
        lines.fold_left(set, type_stepper()).no_duplicates(),
    decreases lines.len(),
{
    if lines.len() > 0 {
        lemma_type_fold_wf(lines.drop_last(), set);
        let before = lines.drop_last().fold_left(set, type_stepper());
        assert(lines.fold_left(set, type_stepper()) == type_step(before, lines.last()));
        lemma_set_put_wf(before, type_step(before, lines.last()));
    }
}

/// A set with one more member, or the same set, has no repetitions.
pub proof fn lemma_set_put_wf(set: Seq<Seq<char>>, after: Seq<Seq<char>>)
    requires
        set.no_duplicates(),
        after == set || exists|x: Seq<char>| after == set_put(set, x),
    ensures
        after.no_duplicates(),
{
    if after != set {
        let x = choose|x: Seq<char>| after == set_put(set, x);
        assert forall|i: int, j: int|
            0 <= i < after.len() && 0 <= j < after.len() && i != j implies after[i]
            != after[j] by {
            if i < set.len() && j < set.len() {
            } else if i < set.len() {
                assert(set.contains(set[i]));
            } else {
                assert(set.contains(set[j]));
            }
        }
    }
}

} // verus!
