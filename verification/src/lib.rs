//! Discovery and refresh of liquidity pools across exchange factories:
//! block-range pagination, result joining, fault policy and request throttling.
//!
//! The library decides and never waits: it plans the log queries of a crawl
//! (`window`, `query`), paces requests (`throttle`), and folds what the workers of
//! a run hand back into what the run returns (`join`, `sync`). Sending the
//! requests, sleeping and spawning workers is left to the caller.

pub mod dex;
pub mod error;
pub mod join;
pub mod query;
pub mod sync;
pub mod throttle;
pub mod window;
