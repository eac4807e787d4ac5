//! Userspace RAM testing: the rules, state and arithmetic of a memory tester.

pub mod allocation;
pub mod bench_api;
pub mod buffer;
pub mod bytes;
pub mod cli;
pub mod clock;
pub mod dimm;
pub mod edac;
pub mod error_analysis;
pub mod events;
pub mod failure;
pub mod faults;
pub mod headless;
pub mod log_bridge;
pub mod memory;
pub mod ndjson;
pub mod ops;
pub mod output;
pub mod parallel;
pub mod pattern;
pub mod pause;
pub mod phys;
pub mod physmem;
pub mod results;
pub mod runner;
pub mod session;
pub mod setup;
pub mod soundness;
pub mod style;
pub mod text;
pub mod units;

pub use failure::{Failure, FailureBudget};
