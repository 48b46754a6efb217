//! Resumable range-parallel and HLS download logic: the byte-range ledger,
//! the chunk planner, the segment planner and the small state machines that
//! the download workers and receivers run.

pub mod args;
pub mod bytes;
pub mod chunk;
pub mod error;
pub mod ledger;
pub mod liberal;
pub mod list;
pub mod m3u8;
pub mod net;
pub mod plan;
pub mod range;
pub mod record;
pub mod show;
pub mod status;
pub mod worker;
