//! Parsing and caching core of a public-transit timetable service: the static
//! route and stop feeds, the real-time arrival feed, expiry-bounded caches and
//! the per-request arrival resolution.

pub mod caches;
pub mod feed;
pub mod localtime;
pub mod lookup;
pub mod models;
pub mod ordered;
pub mod resolution;
pub mod scan;
pub mod services;
pub mod str_utils;
pub mod text;
pub mod wellformed;
