use std::rc::Rc;
use tlt_stops::caches::{
    CacheData, CacheDataWithKeys, Caches, ARRIVALS_TTL_SECS, STATIC_TTL_SECS, TYPES_TTL_SECS,
};

#[test]
fn empty_cache_misses() {
    let mut cache: CacheData<String> = CacheData::new(10);
    assert_eq!(cache.get(0), None);
    assert_eq!(cache.get(u32::MAX), None);
}

#[test]
fn cache_ttl_boundary() {
    let set_at: u32 = 1_000;
    let ttl: u32 = 60;
    let mut cache: CacheData<String> = CacheData::new(ttl);
    assert_eq!(cache.set(Rc::new("value".to_string()), set_at), Ok(()));
    assert_eq!(cache.get(set_at), Some(Rc::new("value".to_string())));
    assert_eq!(cache.get(set_at + ttl - 1), Some(Rc::new("value".to_string())));
    assert_eq!(cache.get(set_at + ttl), Some(Rc::new("value".to_string())));
    assert_eq!(cache.get(set_at + ttl + 1), None);
}

#[test]
fn stale_value_is_evicted_by_get() {
    let mut cache: CacheData<u32> = CacheData::new(5);
    let _ = cache.set(Rc::new(7), 100);
    assert_eq!(cache.get(106), None);
    assert_eq!(cache.get(100), None);
}

#[test]
fn set_replaces_value_and_expiry() {
    let mut cache: CacheData<u32> = CacheData::new(5);
    let _ = cache.set(Rc::new(1), 100);
    let _ = cache.set(Rc::new(2), 200);
    assert_eq!(cache.get(205), Some(Rc::new(2)));
    assert_eq!(cache.get(206), None);
}

#[test]
fn get_hands_out_the_stored_handle() {
    let mut cache: CacheData<String> = CacheData::new(5);
    let value = Rc::new("shared".to_string());
    let _ = cache.set(Rc::clone(&value), 0);
    let found = cache.get(1).unwrap();
    assert!(Rc::ptr_eq(&found, &value));
    assert_eq!(Rc::strong_count(&value), 3);
}

#[test]
fn expiry_saturates_at_the_end_of_time() {
    let mut cache: CacheData<u32> = CacheData::new(u32::MAX);
    let _ = cache.set(Rc::new(1), 10);
    assert_eq!(cache.get(u32::MAX), Some(Rc::new(1)));
    let mut cache: CacheData<u32> = CacheData::new(0);
    let _ = cache.set(Rc::new(1), 10);
    assert_eq!(cache.get(10), Some(Rc::new(1)));
    assert_eq!(cache.get(11), None);
}

#[test]
fn keyed_cache_ttl_boundary() {
    let mut cache: CacheDataWithKeys<String> = CacheDataWithKeys::new(10);
    assert_eq!(cache.get("5001", 0), None);
    assert_eq!(cache.set("5001".to_string(), Rc::new("a".to_string()), 50), Ok(()));
    assert_eq!(cache.get("5001", 60), Some(Rc::new("a".to_string())));
    assert_eq!(cache.get("5002", 60), None);
    assert_eq!(cache.get("5001", 61), None);
    assert_eq!(cache.get("5001", 55), None);
}

#[test]
fn keyed_cache_evicts_only_the_stale_key() {
    let mut cache: CacheDataWithKeys<u32> = CacheDataWithKeys::new(10);
    let _ = cache.set("old".to_string(), Rc::new(1), 0);
    let _ = cache.set("new".to_string(), Rc::new(2), 5);
    assert_eq!(cache.get("old", 12), None);
    assert_eq!(cache.get("new", 12), Some(Rc::new(2)));
    assert_eq!(cache.get("new", 15), Some(Rc::new(2)));
    assert_eq!(cache.get("new", 16), None);
}

#[test]
fn keyed_cache_set_replaces_one_key() {
    let mut cache: CacheDataWithKeys<u32> = CacheDataWithKeys::new(10);
    let _ = cache.set("a".to_string(), Rc::new(1), 0);
    let _ = cache.set("b".to_string(), Rc::new(2), 0);
    let _ = cache.set("a".to_string(), Rc::new(3), 4);
    assert_eq!(cache.get("a", 14), Some(Rc::new(3)));
    assert_eq!(cache.get("b", 10), Some(Rc::new(2)));
    assert_eq!(cache.get("b", 11), None);
}

#[test]
fn service_caches_have_their_lifetimes() {
    assert_eq!(STATIC_TTL_SECS, 3 * 60 * 60);
    assert_eq!(ARRIVALS_TTL_SECS, 10);
    assert_eq!(TYPES_TTL_SECS, 24 * 60 * 60);
    let mut caches = Caches::new();
    assert_eq!(caches.routes_raw.get(0), None);
    assert_eq!(caches.stops_raw.get(0), None);
    assert!(caches.route_map.get(0).is_none());
    assert!(caches.stop_map.get(0).is_none());
    assert_eq!(caches.types.get(0), None);
    assert!(caches.stop_arrival.get("5001", 0).is_none());
    let _ = caches.routes_raw.set(Rc::new(vec![1u8]), 100);
    assert!(caches.routes_raw.get(100 + STATIC_TTL_SECS).is_some());
    assert!(caches.routes_raw.get(101 + STATIC_TTL_SECS).is_none());
    let _ = caches.types.set(Rc::new(vec!["bus".to_string()]), 100);
    assert!(caches.types.get(100 + TYPES_TTL_SECS).is_some());
    assert!(caches.types.get(101 + TYPES_TTL_SECS).is_none());
}
