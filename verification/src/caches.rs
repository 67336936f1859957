//! Expiry-bounded caches: a single slot and a keyed store, each with a time
//! to live fixed at construction. Time is a count of seconds that the caller
//! reads from its clock and hands in. Nothing is swept: a stale value leaves
//! when a `get` finds it.

use crate::models::{rc_share, RouteMap, StopArrivals, StopMap};
use std::rc::Rc;
use vstd::hash_map::StringHashMap;
use vstd::prelude::*;

verus! {

/// Time to live of the raw feeds and of the route and stop indices: three
/// hours.
pub const STATIC_TTL_SECS: u32 = 10800;

/// Time to live of a stop's arrivals: ten seconds.
pub const ARRIVALS_TTL_SECS: u32 = 10;

/// Time to live of the list of transport types: one day.
pub const TYPES_TTL_SECS: u32 = 86400;

/// When a value stored at `now` with time to live `ttl` expires: `ttl`
/// seconds later, or at the end of time when that is beyond it.
pub open spec fn expiry(now: u32, ttl: u32) -> u32 {
    if now + ttl > u32::MAX {
        u32::MAX
    } else {
        (now + ttl) as u32
    }
}

/// What a stored value with its expiry time is worth at `now`: the value as
/// long as `now` is not past the expiry time. A value is still good at the
/// very second in which it expires.
pub open spec fn fresh_at<T>(slot: Option<(T, u32)>, now: u32) -> Option<T> {
    match slot {
        Some((value, expires_at)) => if now > expires_at {
            None
        } else {
            Some(value)
        },
        None => None,
    }
}

/// The handle `r` holds the value `expected`, or both are absent.
pub open spec fn holds<T>(r: Option<Rc<T>>, expected: Option<T>) -> bool {
    match expected {
        Some(value) => r matches Some(handle) && *handle == value,
        None => r is None,
    }
}

/// A stored value and the second after which it is stale.
pub struct CacheRecord<T> {
    data: Rc<T>,
    expires_at: u32,
}

impl<T> CacheRecord<T> {
    /// The stored value and its expiry time.
    pub closed spec fn pair(&self) -> (T, u32) {
        (*self.data, self.expires_at)
    }
}

/// A cache of one value.
pub struct CacheData<T> {
    record: Option<CacheRecord<T>>,
    ttl_secs: u32,
}

impl<T> CacheData<T> {
    /// The time to live, in seconds.
    pub closed spec fn ttl(&self) -> u32 {
        self.ttl_secs
    }

    /// The stored value and its expiry time, if a value is stored.
    pub closed spec fn slot(&self) -> Option<(T, u32)> {
        match self.record {
            Some(record) => Some(record.pair()),
            None => None,
        }
    }

    /// An empty cache whose values live for `ttl_secs` seconds.
    pub fn new(ttl_secs: u32) -> (c: Self)
        ensures
            c.ttl() == ttl_secs,
            c.slot() is None,
    {
        CacheData { record: None, ttl_secs }
    }

    /// Stores `data`, replacing what was stored, to expire `ttl` seconds
    /// after `now`. It always succeeds.
    pub fn set(&mut self, data: Rc<T>, now: u32) -> (r: Result<(), ()>)
        ensures
            r is Ok,
            final(self).ttl() == old(self).ttl(),
            final(self).slot() == Some((*data, expiry(now, old(self).ttl()))),
    {
        let expires_at = now.saturating_add(self.ttl_secs);
        self.record = Some(CacheRecord { data, expires_at });
        Ok(())
    }

    /// The stored value, if there is one and it is not stale at `now`. A
    /// stale value is evicted.
    pub fn get(&mut self, now: u32) -> (r: Option<Rc<T>>)
        ensures
            holds(r, fresh_at(old(self).slot(), now)),
            final(self).ttl() == old(self).ttl(),
            final(self).slot() == if r is Some {
                old(self).slot()
            } else {
                None
            },
    {
        let found = match &self.record {
            Some(record) => if now > record.expires_at {
                None
            } else {
                Some(rc_share(&record.data))
            },
            None => None,
        };
        if found.is_none() {
            self.record = None;
        }
        found
    }
}

/// A cache of one value per text key.
#[verifier::reject_recursive_types(T)]
pub struct CacheDataWithKeys<T> {
    record: StringHashMap<CacheRecord<T>>,
    ttl_secs: u32,
}

impl<T> CacheDataWithKeys<T> {
    /// The time to live, in seconds.
    pub closed spec fn ttl(&self) -> u32 {
        self.ttl_secs
    }

    /// The stored values with their expiry times, by key.
    pub closed spec fn entries(&self) -> Map<Seq<char>, (T, u32)> {
        self.record@.map_values(|record: CacheRecord<T>| record.pair())
    }

    /// What is stored under `key`.
    pub open spec fn slot(&self, key: Seq<char>) -> Option<(T, u32)> {
        if self.entries().contains_key(key) {
            Some(self.entries()[key])
        } else {
            None
        }
    }

    /// An empty cache whose values live for `ttl_secs` seconds.
    pub fn new(ttl_secs: u32) -> (c: Self)
        ensures
            c.ttl() == ttl_secs,
            c.entries() == Map::<Seq<char>, (T, u32)>::empty(),
    {
        let c = CacheDataWithKeys { record: StringHashMap::new(), ttl_secs };
        assert(c.entries() =~= Map::<Seq<char>, (T, u32)>::empty());
        c
    }

    /// Stores `data` under `key`, replacing what was stored there, to expire
    /// `ttl` seconds after `now`. Other keys are not touched. It always
    /// succeeds.
    pub fn set(&mut self, key: String, data: Rc<T>, now: u32) -> (r: Result<(), ()>)
        ensures
            r is Ok,
            final(self).ttl() == old(self).ttl(),
            final(self).entries() == old(self).entries().insert(
                key@,
                (*data, expiry(now, old(self).ttl())),
            ),
    {
        let expires_at = now.saturating_add(self.ttl_secs);
        self.record.insert(key, CacheRecord { data, expires_at });
        assert(self.entries() =~= old(self).entries().insert(
            key@,
            (*data, expiry(now, old(self).ttl())),
        ));
        Ok(())
    }

    /// The value stored under `key`, if there is one and it is not stale at
    /// `now`. A stale value is evicted; other keys are not touched.
    pub fn get(&mut self, key: &str, now: u32) -> (r: Option<Rc<T>>)
        ensures
            holds(r, fresh_at(old(self).slot(key@), now)),
            final(self).ttl() == old(self).ttl(),
            final(self).entries() == if r is Some {
                old(self).entries()
            } else {
                old(self).entries().remove(key@)
            },
    {
        let found = match self.record.get(key) {
            Some(record) => if now > record.expires_at {
                None
            } else {
                Some(rc_share(&record.data))
            },
            None => None,
        };
        if found.is_none() {
            self.record.remove(key);
            assert(self.entries() =~= old(self).entries().remove(key@));
        }
        found
    }
}

/// A value stored at second `set_at` with time to live `ttl` is found `ttl`
/// seconds later and is gone one second after that.
pub proof fn lemma_ttl_boundary<T>(value: T, set_at: u32, ttl: u32)
    ensures
        set_at + ttl <= u32::MAX ==> fresh_at(
            Some((value, expiry(set_at, ttl))),
            (set_at + ttl) as u32,
        ) == Some(value),
        set_at + ttl + 1 <= u32::MAX ==> fresh_at(
            Some((value, expiry(set_at, ttl))),
            (set_at + ttl + 1) as u32,
        ) is None,
        forall|now: u32|
            set_at <= now && now <= set_at + ttl ==> #[trigger] fresh_at(
                Some((value, expiry(set_at, ttl))),
                now,
            ) == Some(value),
        forall|now: u32|
            now > set_at + ttl ==> #[trigger] fresh_at(Some((value, expiry(set_at, ttl))), now)
                is None,
{
}

/// The caches of the service.
pub struct Caches {
    /// The route feed as fetched.
    pub routes_raw: CacheData<Vec<u8>>,
    /// The route index, cached apart from the feed it was parsed from.
    pub route_map: CacheData<RouteMap>,
    /// The arrivals of each stop, by siri id.
    pub stop_arrival: CacheDataWithKeys<StopArrivals>,
    /// The stop index, cached apart from the feed it was parsed from.
    pub stop_map: CacheData<StopMap>,
    /// The stop feed as fetched.
    pub stops_raw: CacheData<Vec<u8>>,
    /// The list of transport types, as the caller last stored it.
    pub types: CacheData<Vec<String>>,
}

impl Caches {
    /// Empty caches: static data lives for three hours, the type list for a
    /// day, a stop's arrivals for ten seconds.
    pub fn new() -> (c: Self)
        ensures
            c.routes_raw.ttl() == STATIC_TTL_SECS && c.routes_raw.slot() is None,
            c.route_map.ttl() == STATIC_TTL_SECS && c.route_map.slot() is None,
            c.stop_arrival.ttl() == ARRIVALS_TTL_SECS && c.stop_arrival.entries() == Map::<
                Seq<char>,
                (StopArrivals, u32),
            >::empty(),
            c.stop_map.ttl() == STATIC_TTL_SECS && c.stop_map.slot() is None,
            c.stops_raw.ttl() == STATIC_TTL_SECS && c.stops_raw.slot() is None,
            c.types.ttl() == TYPES_TTL_SECS && c.types.slot() is None,
    {
        Caches {
            routes_raw: CacheData::new(STATIC_TTL_SECS),
            route_map: CacheData::new(STATIC_TTL_SECS),
            stop_arrival: CacheDataWithKeys::new(ARRIVALS_TTL_SECS),
            stop_map: CacheData::new(STATIC_TTL_SECS),
            stops_raw: CacheData::new(STATIC_TTL_SECS),
            types: CacheData::new(TYPES_TTL_SECS),
        }
    }
}

} // verus!
