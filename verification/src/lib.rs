//! Scoring core for a multi-level competition hierarchy.
//!
//! Rankings for teams and groups are computed over three aggregation levels
//! (event, competition, season) by operator-authored Lua calculator scripts.
//! Scripts receive an exact base-10 decimal type, so rankings never suffer
//! floating-point rounding artifacts. The decimal arithmetic, the ranking
//! rules, and the aggregation protocol are verified; the Lua interpreter is
//! reached only through a small set of trusted wrappers.
#![verifier::loop_isolation(false)]

pub mod auth;
pub mod config;
pub mod decimal;
pub mod engine;
pub mod errors;
pub mod model;
pub mod ranking;
pub mod registry;
pub mod runtime;
pub mod value;
