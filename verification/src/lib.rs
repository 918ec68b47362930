//! A dependency-ordered construction scheduler.
//!
//! Callers register named units of work ("systems"), declare that one system
//! must run after others, and finally execute every registered routine exactly
//! once in an order that honors all declared dependencies.  Registration that
//! would introduce a cyclic dependency is rejected up front, and execution
//! stops at the first failing routine.
//!
//! The crate also carries the plain data conversions that accompany the
//! scheduler in the engine: a scene-graph conversion (`model`) and the
//! material classification enums (`material`).

pub mod graph;
pub mod laws;
pub mod material;
pub mod model;
pub mod system;
