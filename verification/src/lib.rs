//! Directed input search for a taint-guided fuzzer: boundary-value tables, a
//! length-bucketed token dictionary, and three search strategies written as
//! state machines that a driver steps through.

pub mod buckets;
pub mod cbh;
pub mod cond;
pub mod decimal;
pub mod dict;
pub mod interesting_val;
pub mod mb;
pub mod model;
pub mod random;
pub mod search;
pub mod shared;
pub mod spans;
pub mod word;
