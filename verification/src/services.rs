//! The service's error type and the parts of its work that compute: reading
//! the caches, parsing what was fetched and storing what was parsed.

use crate::caches::{expiry, fresh_at, CacheDataWithKeys, Caches};
use crate::feed::scan_lines;
use crate::localtime::tallinn_today;
use crate::models::{
    rc_share, RouteGroupView, RouteMap, StopArrivals, StopArrivalsView, StopMap, StopMapView,
};
use crate::scan::slices_view;
use crate::str_utils::{
    block_pieces, extract_route_data_from_buffer, extract_stop_data_from_buffer,
    extract_type_from_buffer, has_line, parse_block, route_stepper, split_arrival_by_stops,
    stop_block, stop_stepper, type_stepper, LastRouteData, LastRouteDataView,
};
use std::rc::Rc;
use vstd::prelude::*;

verus! {

/// Why a feed could not be turned into an answer.
#[derive(Debug, PartialEq, Eq)]
pub enum ParsingUpstreamError {
    /// The upstream could not be reached or answered with a failure.
    Http(String),
    /// Bytes that should have been text or a number were not.
    Utf8,
    /// The feed was malformed or incomplete; the message says how.
    Error(String),
}

/// The view of a [`ParsingUpstreamError`].
pub enum ParsingUpstreamErrorView {
    Http(Seq<char>),
    Utf8,
    Error(Seq<char>),
}

impl DeepView for ParsingUpstreamError {
    type V = ParsingUpstreamErrorView;

    open spec fn deep_view(&self) -> ParsingUpstreamErrorView {
        match self {
            ParsingUpstreamError::Http(m) => ParsingUpstreamErrorView::Http(m@),
            ParsingUpstreamError::Utf8 => ParsingUpstreamErrorView::Utf8,
            ParsingUpstreamError::Error(m) => ParsingUpstreamErrorView::Error(m@),
        }
    }
}

/// The transit service: what it computes from the feeds and keeps in the
/// caches.
pub struct TransportService {}

impl TransportService {
    /// The service. It holds no state of its own.
    pub fn new() -> Self {
        Self {  }
    }

    /// The display name of the stop entered under `stop_id`.
    pub fn get_stop_name_by_id(stop_id: &str, stop_map: &StopMap) -> (r: Option<Rc<String>>)
        ensures
            match r {
                Some(name) => stop_map.deep_view().contains_key(stop_id@) && name@
                    == stop_map.deep_view()[stop_id@].name,
                None => !stop_map.deep_view().contains_key(stop_id@),
            },
    {
        match stop_map.get(stop_id) {
            Some(stop) => Some(rc_share(&stop.name)),
            None => None,
        }
    }
}

/// The arrivals cache as seen from outside: under each key the arrivals, as
/// a view, and their expiry time.
pub open spec fn arrival_entries(cache: CacheDataWithKeys<StopArrivals>) -> Map<
    Seq<char>,
    (StopArrivalsView, u32),
> {
    cache.entries().map_values(|p: (StopArrivals, u32)| (p.0.deep_view(), p.1))
}

/// What storing the arrivals of `blocks` does, piece by piece: a fragment, a
/// piece that holds no line feed, is passed over; each block that parses is
/// stored under the siri id it names, to expire at `expires_at`; the first
/// block that fails ends it with that block's error, and what was stored
/// before it stays stored.
pub open spec fn store_blocks(
    entries: Map<Seq<char>, (StopArrivalsView, u32)>,
    blocks: Seq<Seq<u8>>,
    stops: StopMapView,
    day: int,
    expires_at: u32,
) -> (Map<Seq<char>, (StopArrivalsView, u32)>, Result<(), ParsingUpstreamErrorView>)
    decreases blocks.len(),
{
    if blocks.len() == 0 {
        (entries, Ok(()))
    } else {
        let before = store_blocks(entries, blocks.drop_last(), stops, day, expires_at);
        match before.1 {
            Err(e) => before,
            Ok(_) => if !has_line(blocks.last()) {
                before
            } else {
                match stop_block(blocks.last(), stops, day) {
                    Ok(arrivals) => (
                        before.0.insert(arrivals.id, (arrivals, expires_at)),
                        Ok(()),
                    ),
                    Err(e) => (before.0, Err(e)),
                }
            },
        }
    }
}

/// What an arrival response does to the arrivals cache: its pieces are those
/// of [`split_arrival_by_stops`].
pub open spec fn store_response(
    entries: Map<Seq<char>, (StopArrivalsView, u32)>,
    response: Seq<u8>,
    stops: StopMapView,
    day: int,
    expires_at: u32,
) -> (Map<Seq<char>, (StopArrivalsView, u32)>, Result<(), ParsingUpstreamErrorView>) {
    store_blocks(entries, block_pieces(response).drop_first(), stops, day, expires_at)
}

/// `r` is the outcome `expected`.
pub open spec fn is_outcome(
    r: Result<(), ParsingUpstreamError>,
    expected: Result<(), ParsingUpstreamErrorView>,
) -> bool {
    match expected {
        Ok(_) => r is Ok,
        Err(e) => r matches Err(x) && x.deep_view() == e,
    }
}

/// Storing stops at the first block that fails.
pub proof fn lemma_store_blocks_fails(
    entries: Map<Seq<char>, (StopArrivalsView, u32)>,
    blocks: Seq<Seq<u8>>,
    k: int,
    stops: StopMapView,
    day: int,
    expires_at: u32,
)
    requires
        0 <= k <= blocks.len(),
        store_blocks(entries, blocks.take(k), stops, day, expires_at).1 is Err,
    ensures
        store_blocks(entries, blocks, stops, day, expires_at) == store_blocks(
            entries,
            blocks.take(k),
            stops,
            day,
            expires_at,
        ),
    decreases blocks.len() - k,
{
    if k == blocks.len() {
        assert(blocks.take(k) =~= blocks);
    } else {
        assert(blocks.take(k + 1).drop_last() =~= blocks.take(k));
        lemma_store_blocks_fails(entries, blocks, k + 1, stops, day, expires_at);
    }
}

/// Parses an arrival response and stores the arrivals of each of its stops
/// in the cache, under the stop's siri id, as of second `now`;
/// `reference_day` is the day number of the feed's reference date.
pub fn store_stop_arrivals(
    cache: &mut CacheDataWithKeys<StopArrivals>,
    stop_map: &StopMap,
    arrivals_raw: &[u8],
    now: u32,
    reference_day: i32,
) -> (r: Result<(), ParsingUpstreamError>)
    ensures
        final(cache).ttl() == old(cache).ttl(),
        ({
            let expected = store_response(
                arrival_entries(*old(cache)),
                arrivals_raw@,
                stop_map.deep_view(),
                reference_day as int,
                expiry(now, old(cache).ttl()),
            );
            arrival_entries(*final(cache)) == expected.0 && is_outcome(r, expected.1)
        }),
{
    let blocks = split_arrival_by_stops(arrivals_raw);
    let ghost all = block_pieces(arrivals_raw@).drop_first();
    let ghost entries0 = arrival_entries(*cache);
    let ghost expires_at = expiry(now, cache.ttl());
    let mut i: usize = 0;
    proof {
        assert(all.take(0) =~= Seq::<Seq<u8>>::empty());
        assert(blocks@.len() == slices_view(blocks@).len());
    }
    while i < blocks.len()
        invariant
            i <= blocks@.len(),
            blocks@.len() == all.len(),
            slices_view(blocks@) == all,
            all == block_pieces(arrivals_raw@).drop_first(),
            entries0 == arrival_entries(*old(cache)),
            cache.ttl() == old(cache).ttl(),
            expires_at == expiry(now, cache.ttl()),
            store_blocks(
                entries0,
                all.take(i as int),
                stop_map.deep_view(),
                reference_day as int,
                expires_at,
            ) == (arrival_entries(*cache), Ok::<(), ParsingUpstreamErrorView>(())),
        decreases blocks@.len() - i,
    {
        proof {
            assert(all[i as int] == blocks@[i as int]@);
            assert(all.take(i + 1).drop_last() =~= all.take(i as int));
        }
        match parse_block(blocks[i], stop_map, reference_day) {
            Some(Ok(stop_arrival)) => {
                let ghost before = arrival_entries(*cache);
                let key = stop_arrival.id.clone();
                let _ = cache.set(key, Rc::new(stop_arrival), now);
                proof {
                    assert(arrival_entries(*cache) =~= before.insert(
                        stop_arrival.id@,
                        (stop_arrival.deep_view(), expires_at),
                    ));
                }
            },
            Some(Err(e)) => {
                proof {
                    lemma_store_blocks_fails(
                        entries0,
                        all,
                        i + 1,
                        stop_map.deep_view(),
                        reference_day as int,
                        expires_at,
                    );
                }
                return Err(e);
            },
            None => {},
        }
        i = i + 1;
    }
    proof {
        assert(all.take(i as int) =~= all);
    }
    Ok(())
}

impl TransportService {
    /// Parses an arrival response and stores the arrivals of each of its
    /// stops in the cache, as of second `now`. The feed's reference date is
    /// the current date in Tallinn: the outcome is that of
    /// [`store_stop_arrivals`] for the day on which the call is made.
    pub fn update_stops_arrival_cache(
        &self,
        cache: &mut CacheDataWithKeys<StopArrivals>,
        stop_map: &StopMap,
        arrivals_raw: &[u8],
        now: u32,
    ) -> (r: Result<(), ParsingUpstreamError>)
        ensures
            final(cache).ttl() == old(cache).ttl(),
            exists|day: int|
                i32::MIN <= day <= i32::MAX && ({
                    let expected = #[trigger] store_response(
                        arrival_entries(*old(cache)),
                        arrivals_raw@,
                        stop_map.deep_view(),
                        day,
                        expiry(now, old(cache).ttl()),
                    );
                    arrival_entries(*final(cache)) == expected.0 && is_outcome(r, expected.1)
                }),
    {
        let today = tallinn_today();
        store_stop_arrivals(cache, stop_map, arrivals_raw, now, today)
    }

    /// The transport types, from the cached route feed: `None` when the feed
    /// is not cached or is stale at `now`, so that it has to be fetched.
    pub fn get_types(&self, caches: &mut Caches, now: u32) -> (r: Option<Vec<String>>)
        ensures
            match fresh_at(old(caches).routes_raw.slot(), now) {
                Some(bytes) => r matches Some(types) && types.deep_view() == scan_lines(
                    bytes@,
                    Seq::<Seq<char>>::empty(),
                    0,
                    false,
                    type_stepper(),
                ).0,
                None => r is None,
            },
            final(caches).routes_raw.ttl() == old(caches).routes_raw.ttl(),
            final(caches).routes_raw.slot() == if r is Some {
                old(caches).routes_raw.slot()
            } else {
                None
            },
            final(caches).route_map == old(caches).route_map,
            final(caches).stop_arrival == old(caches).stop_arrival,
            final(caches).stop_map == old(caches).stop_map,
            final(caches).stops_raw == old(caches).stops_raw,
            final(caches).types == old(caches).types,
    {
        match caches.routes_raw.get(now) {
            Some(bytes) => {
                let empty: Vec<String> = Vec::new();
                assert(empty.deep_view() =~= Seq::<Seq<char>>::empty());
                let (types, _, _) = extract_type_from_buffer(bytes.as_slice(), empty, 0, false);
                Some(types)
            },
            None => None,
        }
    }

    /// Ends a fetch of the route feed that was folded into the transport
    /// types: the bytes are cached as of `now`, the types returned.
    pub fn complete_types(
        &self,
        caches: &mut Caches,
        state: (Vec<u8>, Vec<String>, usize, bool),
        now: u32,
    ) -> (r: Vec<String>)
        ensures
            r == state.1,
            final(caches).routes_raw.ttl() == old(caches).routes_raw.ttl(),
            final(caches).routes_raw.slot() == Some(
                (state.0, expiry(now, old(caches).routes_raw.ttl())),
            ),
            final(caches).route_map == old(caches).route_map,
            final(caches).stop_arrival == old(caches).stop_arrival,
            final(caches).stop_map == old(caches).stop_map,
            final(caches).stops_raw == old(caches).stops_raw,
            final(caches).types == old(caches).types,
    {
        let (buf, types, _, _) = state;
        let _ = caches.routes_raw.set(Rc::new(buf), now);
        types
    }

    /// The route index: the cached index when it is not stale at `now`; else
    /// the index parsed from the cached route feed, which is then cached as
    /// of `now`; `None` when neither is there, so that the feed has to be
    /// fetched.
    pub fn get_route_map(&self, caches: &mut Caches, now: u32) -> (r: Option<Rc<RouteMap>>)
        ensures
            match fresh_at(old(caches).route_map.slot(), now) {
                Some(routes) => {
                    &&& r matches Some(found) && *found == routes
                    &&& final(caches).route_map.slot() == old(caches).route_map.slot()
                    &&& final(caches).routes_raw == old(caches).routes_raw
                },
                None => match fresh_at(old(caches).routes_raw.slot(), now) {
                    Some(bytes) => {
                        &&& r matches Some(found) && found.deep_view() == scan_lines(
                            bytes@,
                            (
                                Seq::<(Seq<char>, Seq<(Seq<char>, RouteGroupView)>)>::empty(),
                                LastRouteDataView { last_type: None, last_number: None },
                            ),
                            0,
                            false,
                            route_stepper(),
                        ).0.0 && final(caches).route_map.slot() == Some(
                            (*found, expiry(now, old(caches).route_map.ttl())),
                        )
                        &&& final(caches).routes_raw.slot() == old(caches).routes_raw.slot()
                    },
                    None => {
                        &&& r is None
                        &&& final(caches).route_map.slot() is None
                        &&& final(caches).routes_raw.slot() is None
                    },
                },
            },
            final(caches).route_map.ttl() == old(caches).route_map.ttl(),
            final(caches).routes_raw.ttl() == old(caches).routes_raw.ttl(),
            final(caches).stops_raw == old(caches).stops_raw,
            final(caches).stop_map == old(caches).stop_map,
            final(caches).stop_arrival == old(caches).stop_arrival,
            final(caches).types == old(caches).types,
    {
        if let Some(found) = caches.route_map.get(now) {
            return Some(found);
        }
        match caches.routes_raw.get(now) {
            Some(bytes) => {
                let (routes, _, _, _) = extract_route_data_from_buffer(
                    bytes.as_slice(),
                    RouteMap::new(),
                    LastRouteData::default(),
                    0,
                    false,
                );
                let routes = Rc::new(routes);
                let _ = caches.route_map.set(rc_share(&routes), now);
                Some(routes)
            },
            None => None,
        }
    }

    /// Ends a fetch of the route feed that was folded into the route index:
    /// the bytes and the index are cached as of `now`, the index returned.
    pub fn complete_route_map(
        &self,
        caches: &mut Caches,
        state: (Vec<u8>, RouteMap, LastRouteData, usize, bool),
        now: u32,
    ) -> (r: Rc<RouteMap>)
        ensures
            *r == state.1,
            final(caches).routes_raw.ttl() == old(caches).routes_raw.ttl(),
            final(caches).routes_raw.slot() == Some(
                (state.0, expiry(now, old(caches).routes_raw.ttl())),
            ),
            final(caches).route_map.ttl() == old(caches).route_map.ttl(),
            final(caches).route_map.slot() == Some(
                (state.1, expiry(now, old(caches).route_map.ttl())),
            ),
            final(caches).stops_raw == old(caches).stops_raw,
            final(caches).stop_map == old(caches).stop_map,
            final(caches).stop_arrival == old(caches).stop_arrival,
            final(caches).types == old(caches).types,
    {
        let (buf, routes, _, _, _) = state;
        let _ = caches.routes_raw.set(Rc::new(buf), now);
        let routes = Rc::new(routes);
        let _ = caches.route_map.set(rc_share(&routes), now);
        routes
    }

    /// The stop index: the cached index when it is not stale at `now`; else
    /// the index parsed from the cached stop feed, which is then cached as
    /// of `now`; `None` when neither is there, so that the feed has to be
    /// fetched.
    pub fn get_stop_map(&self, caches: &mut Caches, now: u32) -> (r: Option<Rc<StopMap>>)
        ensures
            match fresh_at(old(caches).stop_map.slot(), now) {
                Some(stops) => {
                    &&& r matches Some(found) && *found == stops
                    &&& final(caches).stop_map.slot() == old(caches).stop_map.slot()
                    &&& final(caches).stops_raw == old(caches).stops_raw
                },
                None => match fresh_at(old(caches).stops_raw.slot(), now) {
                    Some(bytes) => {
                        &&& r matches Some(found) && found.deep_view() == scan_lines(
                            bytes@,
                            (Map::<Seq<char>, crate::models::StopDataView>::empty(), None),
                            0,
                            false,
                            stop_stepper(),
                        ).0.0 && final(caches).stop_map.slot() == Some(
                            (*found, expiry(now, old(caches).stop_map.ttl())),
                        )
                        &&& final(caches).stops_raw.slot() == old(caches).stops_raw.slot()
                    },
                    None => {
                        &&& r is None
                        &&& final(caches).stop_map.slot() is None
                        &&& final(caches).stops_raw.slot() is None
                    },
                },
            },
            final(caches).stop_map.ttl() == old(caches).stop_map.ttl(),
            final(caches).stops_raw.ttl() == old(caches).stops_raw.ttl(),
            final(caches).routes_raw == old(caches).routes_raw,
            final(caches).route_map == old(caches).route_map,
            final(caches).stop_arrival == old(caches).stop_arrival,
            final(caches).types == old(caches).types,
    {
        if let Some(found) = caches.stop_map.get(now) {
            return Some(found);
        }
        match caches.stops_raw.get(now) {
            Some(bytes) => {
                let (stops, _, _, _) = extract_stop_data_from_buffer(
                    bytes.as_slice(),
                    StopMap::new(),
                    None,
                    0,
                    false,
                );
                let stops = Rc::new(stops);
                let _ = caches.stop_map.set(rc_share(&stops), now);
                Some(stops)
            },
            None => None,
        }
    }

    /// Ends a fetch of the stop feed that was folded into the stop index:
    /// the bytes and the index are cached as of `now`, the index returned.
    pub fn complete_stop_map(
        &self,
        caches: &mut Caches,
        state: (Vec<u8>, StopMap, Option<Rc<String>>, usize, bool),
        now: u32,
    ) -> (r: Rc<StopMap>)
        ensures
            *r == state.1,
            final(caches).stops_raw.ttl() == old(caches).stops_raw.ttl(),
            final(caches).stops_raw.slot() == Some(
                (state.0, expiry(now, old(caches).stops_raw.ttl())),
            ),
            final(caches).stop_map.ttl() == old(caches).stop_map.ttl(),
            final(caches).stop_map.slot() == Some(
                (state.1, expiry(now, old(caches).stop_map.ttl())),
            ),
            final(caches).routes_raw == old(caches).routes_raw,
            final(caches).route_map == old(caches).route_map,
            final(caches).stop_arrival == old(caches).stop_arrival,
            final(caches).types == old(caches).types,
    {
        let (buf, stops, _, _, _) = state;
        let _ = caches.stops_raw.set(Rc::new(buf), now);
        let stops = Rc::new(stops);
        let _ = caches.stop_map.set(rc_share(&stops), now);
        stops
    }
}

} // verus!
