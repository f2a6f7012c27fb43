//! A verified crawling core: a deduplicating frontier of URLs, a
//! scope rule keyed to the seed's host, link and mail extraction, a
//! rate-limited admission gate, and an engine that hands out fetch
//! work and detects when the crawl is over. Fetching itself — plain
//! HTTP — is the caller's job; the engine only decides what to fetch
//! next and folds every outcome back in.

pub mod engine;
pub mod error;
pub mod extract;
pub mod frontier;
pub mod rate;
pub mod reachability;
pub mod scope;
pub mod urls;
