//! Load balancing for the peers of an HTTP upstream.
//!
//! Two policies choose a peer for each request: `least_conn` takes the one with
//! the fewest connections, weighted, and `ewma` the better of two random ones by
//! a moving average of round-trip times. Both work on the peer lists of a host
//! server, as plain values: the host locks its lists, hands them in, and writes
//! back what has changed.
pub mod bytes;
pub mod config;
pub mod ewma;
pub mod least_conn;
pub mod peer;
pub mod policy;
pub mod score;
pub mod tried;
