//! Splitting a sorted file of fixed-layout records into per-prefix buckets.
//!
//! The crate holds the decisions of the splitter (how large a block may be, where the
//! blocks of a file begin and end, which bucket each record goes to, and which blocks run
//! together) and the matching decisions of a consumer that looks one record up.
//! Reading and writing files and running worker threads is left to the caller.

pub mod capacity;
pub mod error;
pub mod lookup;
pub mod planner;
pub mod record;
pub mod run;
pub mod waves;
pub mod writer;
