//! Statistical response-diffing core of a reverse proxy: JSON comparison,
//! path suppression, endpoint matching, sample storage and regression counting.
use vstd::prelude::*;

pub mod compare;
pub mod config;
pub mod counters;
pub mod curl;
pub mod diff_store;
pub mod endpoint;
pub mod engine;
pub mod errors;
pub mod flatten;
pub mod json;
pub mod keyed;
pub mod maps;
pub mod metrics;
pub mod order;
pub mod pathmatch;
pub mod pipeline;
pub mod proxy;
pub mod query;
pub mod redis_store;
pub mod sample;
pub mod store;
pub mod suppress;
pub mod text;

verus! {

} // verus!
