use vstd::prelude::*;

pub mod acceleration;
pub mod backfill;
pub mod catalog;
pub mod changelog;
pub mod constraints;
pub mod display;
pub mod epoch;
pub mod hierarchy;
pub mod hooks;
pub mod mvcc;
pub mod planner;
pub mod refresh;
pub mod rollup;
pub mod scan;
pub mod server;
pub mod setup;
pub mod storage;
pub mod text;
pub mod validate;
pub mod worker;
pub mod zorder;

verus! {

} // verus!
