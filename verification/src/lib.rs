//! A client library for the Nadeo (Trackmania) web services.
//!
//! The verified part of the library holds the data model of the services,
//! the zone tree, the token and credential handling, the request batching
//! queue, the request-rate bookkeeping and the construction of request paths
//! and queries. The network I/O lives in the companion application crate.
pub mod text;
pub mod zones;
pub mod live;
pub mod time;
pub mod json;
pub mod auth;
pub mod ratelimit;
pub mod requests;
pub mod meet;
