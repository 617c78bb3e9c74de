//! A scope tracker: a persistent set of IP addresses (with optional hostnames,
//! comments and liveness flags) that answers exact-match membership queries.

pub mod codec;
pub mod errors;
pub mod ip;
pub mod laws;
pub mod store;
pub mod text;
