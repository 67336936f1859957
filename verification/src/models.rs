//! The records that the feeds are parsed into, the indices built from them,
//! and the per-request resolution states. Every type has a deep view: the
//! same record with its texts as character sequences.

use crate::caches::{fresh_at, CacheDataWithKeys};
use crate::ordered::OrdMap;
use std::rc::Rc;
use vstd::hash_map::StringHashMap;
use vstd::prelude::*;

verus! {

/// A fault in what the client asked for.
#[derive(Debug, PartialEq, Eq)]
pub enum RequestError {
    MissingParameter(String),
    InvalidParameter(String),
}

/// One parsed line of the route feed.
#[derive(Debug, PartialEq, Eq)]
pub struct RouteData {
    pub number: String,
    pub route_type: String,
    pub directions: String,
    pub stops: Vec<String>,
}

/// The view of a [`RouteData`].
pub struct RouteDataView {
    pub number: Seq<char>,
    pub route_type: Seq<char>,
    pub directions: Seq<char>,
    pub stops: Seq<Seq<char>>,
}

impl DeepView for RouteData {
    type V = RouteDataView;

    open spec fn deep_view(&self) -> RouteDataView {
        RouteDataView {
            number: self.number@,
            route_type: self.route_type@,
            directions: self.directions@,
            stops: self.stops.deep_view(),
        }
    }
}

/// All directions of one route: a transport type and a route number, and for
/// each direction name the stops in feed order.
#[derive(Debug, Clone, PartialEq, Eq)]
pub struct RouteGroup {
    pub number: String,
    pub route_type: String,
    pub directions: OrdMap<Vec<String>>,
}

/// The view of a [`RouteGroup`].
pub struct RouteGroupView {
    pub number: Seq<char>,
    pub route_type: Seq<char>,
    pub directions: Seq<(Seq<char>, Seq<Seq<char>>)>,
}

impl DeepView for RouteGroup {
    type V = RouteGroupView;

    open spec fn deep_view(&self) -> RouteGroupView {
        RouteGroupView {
            number: self.number@,
            route_type: self.route_type@,
            directions: self.directions.deep_view(),
        }
    }
}

/// The route index: transport type, then route number, then the group.
pub type RouteMap = OrdMap<OrdMap<RouteGroup>>;

/// The view of a [`RouteMap`]: types, routes and groups in feed order.
pub type RouteMapView = Seq<(Seq<char>, Seq<(Seq<char>, RouteGroupView)>)>;

/// A stop of the static feed. `siri_id` is the key under which the real-time
/// feed knows it.
#[derive(Debug, Clone, PartialEq, Eq)]
pub struct StopData {
    pub id: String,
    pub siri_id: String,
    pub name: Rc<String>,
}

/// The view of a [`StopData`].
pub struct StopDataView {
    pub id: Seq<char>,
    pub siri_id: Seq<char>,
    pub name: Seq<char>,
}

impl DeepView for StopData {
    type V = StopDataView;

    open spec fn deep_view(&self) -> StopDataView {
        StopDataView { id: self.id@, siri_id: self.siri_id@, name: self.name@ }
    }
}

/// A stop as listed for a route: identifier and display name.
#[derive(Debug, Clone, PartialEq, Eq)]
pub struct StopResponse(pub String, pub String);

/// One expected departure, as an absolute UTC time in RFC 3339 form, tagged
/// with whether the vehicle has a low entry.
#[derive(Debug, PartialEq, Eq)]
pub enum Arrival {
    RegularEntry(String),
    LowEntry(String),
}

/// The view of an [`Arrival`].
pub enum ArrivalView {
    RegularEntry(Seq<char>),
    LowEntry(Seq<char>),
}

impl DeepView for Arrival {
    type V = ArrivalView;

    open spec fn deep_view(&self) -> ArrivalView {
        match self {
            Arrival::RegularEntry(t) => ArrivalView::RegularEntry(t@),
            Arrival::LowEntry(t) => ArrivalView::LowEntry(t@),
        }
    }
}

impl Arrival {
    /// The departure time.
    pub fn time(&self) -> (t: &String)
        ensures
            self.deep_view() == ArrivalView::RegularEntry(t@) || self.deep_view()
                == ArrivalView::LowEntry(t@),
    {
        match self {
            Arrival::RegularEntry(t) => t,
            Arrival::LowEntry(t) => t,
        }
    }

    /// Whether the vehicle has a low entry.
    pub fn is_low_entry(&self) -> (b: bool)
        ensures
            b == (self.deep_view() is LowEntry),
    {
        match self {
            Arrival::RegularEntry(_) => false,
            Arrival::LowEntry(_) => true,
        }
    }
}

/// One parsed line of the arrival feed.
#[derive(Debug, PartialEq, Eq)]
pub struct StopArrival {
    pub number: String,
    pub route_type: String,
    pub arrivals: Arrival,
}

/// The view of a [`StopArrival`].
pub struct StopArrivalView {
    pub number: Seq<char>,
    pub route_type: Seq<char>,
    pub arrivals: ArrivalView,
}

impl DeepView for StopArrival {
    type V = StopArrivalView;

    open spec fn deep_view(&self) -> StopArrivalView {
        StopArrivalView {
            number: self.number@,
            route_type: self.route_type@,
            arrivals: self.arrivals.deep_view(),
        }
    }
}

/// Departures grouped by transport type, then by route number, each list in
/// feed order.
pub type ArrivalTable = OrdMap<OrdMap<Vec<Arrival>>>;

/// The view of an [`ArrivalTable`].
pub type ArrivalTableView = Seq<(Seq<char>, Seq<(Seq<char>, Seq<ArrivalView>)>)>;

/// The expected departures of one stop.
#[derive(Debug, PartialEq, Eq)]
pub struct StopArrivals {
    pub id: String,
    pub name: String,
    pub arrivals: ArrivalTable,
}

/// The view of a [`StopArrivals`].
pub struct StopArrivalsView {
    pub id: Seq<char>,
    pub name: Seq<char>,
    pub arrivals: ArrivalTableView,
}

impl DeepView for StopArrivals {
    type V = StopArrivalsView;

    open spec fn deep_view(&self) -> StopArrivalsView {
        StopArrivalsView { id: self.id@, name: self.name@, arrivals: self.arrivals.deep_view() }
    }
}

/// The answer to an arrivals request: one entry per requested identifier, in
/// request order, empty for an identifier that names no stop.
pub struct PostArrivalsResponse {
    pub stops: Vec<Option<Rc<StopArrivals>>>,
}

impl DeepView for PostArrivalsResponse {
    type V = Seq<Option<StopArrivalsView>>;

    open spec fn deep_view(&self) -> Seq<Option<StopArrivalsView>> {
        self.stops.deep_view()
    }
}

/// The stop index. A stop is entered under its `id` and under its `siri_id`,
/// so a lookup by either finds it.
pub struct StopMap {
    index: StringHashMap<Rc<StopData>>,
}

/// The view of a [`StopMap`]: the stop filed under each key.
pub type StopMapView = Map<Seq<char>, StopDataView>;

impl DeepView for StopMap {
    type V = StopMapView;

    closed spec fn deep_view(&self) -> StopMapView {
        self.index@.map_values(|s: Rc<StopData>| s.deep_view())
    }
}

impl StopMap {
    /// The empty index.
    pub fn new() -> (m: Self)
        ensures
            m.deep_view() == Map::<Seq<char>, StopDataView>::empty(),
    {
        let m = StopMap { index: StringHashMap::new() };
        assert(m.deep_view() =~= Map::<Seq<char>, StopDataView>::empty());
        m
    }

    /// Enters `stop` under `key`, replacing what was there.
    pub fn insert(&mut self, key: String, stop: Rc<StopData>)
        ensures
            final(self).deep_view() == old(self).deep_view().insert(key@, stop.deep_view()),
    {
        self.index.insert(key, stop);
        assert(self.deep_view() =~= old(self).deep_view().insert(key@, stop.deep_view()));
    }

    /// The stop entered under `key`.
    pub fn get(&self, key: &str) -> (r: Option<&Rc<StopData>>)
        ensures
            match r {
                Some(s) => self.deep_view().contains_key(key@) && s.deep_view()
                    == self.deep_view()[key@],
                None => !self.deep_view().contains_key(key@),
            },
    {
        self.index.get(key)
    }

    /// The number of keys.
    pub fn len(&self) -> (n: usize)
        ensures
            n == self.deep_view().len(),
    {
        broadcast use vstd::hash_map::group_hash_map_axioms;

        assert(self.deep_view().dom() =~= self.index@.dom());
        self.index.len()
    }
}

/// A stop identifier as the client sent it.
pub struct StopId(pub String);

impl std::ops::Deref for StopId {
    type Target = String;

    fn deref(&self) -> (text: &String)
        ensures
            *text == self.0,
    {
        &self.0
    }
}

/// A stop identifier that the stop index knows.
pub struct ValidStop {
    pub data: Rc<StopData>,
}

/// The arrivals found for a stop.
pub struct ReadyStopArrivals(pub Rc<StopArrivals>);

/// Where the resolution of one requested identifier stands. It only moves
/// forward: from `StopId` to `Invalid` or `Valid`, from `Valid` to `Ready`.
pub enum StopArrivalState {
    StopId(StopId),
    Invalid,
    Valid(ValidStop),
    Ready(ReadyStopArrivals),
}

/// The view of a [`StopArrivalState`].
pub enum StopArrivalStateView {
    StopId(Seq<char>),
    Invalid,
    Valid(StopDataView),
    Ready(StopArrivalsView),
}

impl DeepView for StopArrivalState {
    type V = StopArrivalStateView;

    open spec fn deep_view(&self) -> StopArrivalStateView {
        match self {
            StopArrivalState::StopId(id) => StopArrivalStateView::StopId(id.0@),
            StopArrivalState::Invalid => StopArrivalStateView::Invalid,
            StopArrivalState::Valid(stop) => StopArrivalStateView::Valid(stop.data.deep_view()),
            StopArrivalState::Ready(ready) => StopArrivalStateView::Ready(ready.0.deep_view()),
        }
    }
}

/// The arrivals that `cache` holds for `key` and that are not stale at `now`.
pub open spec fn cached_arrivals(
    cache: CacheDataWithKeys<StopArrivals>,
    key: Seq<char>,
    now: u32,
) -> Option<StopArrivalsView> {
    match fresh_at(cache.slot(key), now) {
        Some(arrivals) => Some(arrivals.deep_view()),
        None => None,
    }
}

impl StopId {
    /// Looks the identifier up in the stop index.
    pub fn validate(self, stop_map: &StopMap) -> (s: StopArrivalState)
        ensures
            match s {
                StopArrivalState::Valid(v) => stop_map.deep_view().contains_key(self.0@)
                    && v.data.deep_view() == stop_map.deep_view()[self.0@],
                StopArrivalState::Invalid => !stop_map.deep_view().contains_key(self.0@),
                _ => false,
            },
    {
        match stop_map.get(self.0.as_str()) {
            Some(data) => StopArrivalState::Valid(ValidStop { data: rc_share(data) }),
            None => StopArrivalState::Invalid,
        }
    }
}

impl ValidStop {
    /// Reads the stop's arrivals from the cache, under its siri id: found and
    /// not stale, the stop is `Ready`; else it stays `Valid`. A stale entry
    /// is evicted.
    pub fn fetch_arrivals_from_cache(
        self,
        arrivals_cache: &mut CacheDataWithKeys<StopArrivals>,
        now: u32,
    ) -> (s: StopArrivalState)
        ensures
            match fresh_at(old(arrivals_cache).slot(self.data.siri_id@), now) {
                Some(arrivals) => s matches StopArrivalState::Ready(ready) && *ready.0 == arrivals,
                None => s matches StopArrivalState::Valid(stop) && stop.data == self.data,
            },
            final(arrivals_cache).ttl() == old(arrivals_cache).ttl(),
            final(arrivals_cache).entries() == if s is Ready {
                old(arrivals_cache).entries()
            } else {
                old(arrivals_cache).entries().remove(self.data.siri_id@)
            },
    {
        let from_cache = arrivals_cache.get(self.data.siri_id.as_str(), now);
        match from_cache {
            Some(arrivals) => StopArrivalState::Ready(ReadyStopArrivals(arrivals)),
            None => StopArrivalState::Valid(self),
        }
    }
}

/// `Rc::clone`: another handle to the same value.
#[verifier::external_body]
pub(crate) fn rc_share<T>(r: &Rc<T>) -> (res: Rc<T>)
    ensures
        res == *r,
{
    Rc::clone(r)
}

} // verus!
