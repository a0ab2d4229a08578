//! A polite, bounded-concurrency web crawler engine.
//!
//! Given a set of seed URLs and a pluggable site strategy (a spider), the
//! engine discovers, fetches and hands off pages for processing until no
//! more work remains, deduplicating URLs along the way and tracking which
//! URLs failed to scrape.

pub mod crawler;
pub mod error;
pub mod frontier;
pub mod queue;
pub mod spiders;

pub use crawler::Crawler;
pub use error::Error;
