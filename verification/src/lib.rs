//! A small web-crawler core: URL canonicalization, HTML page parsing,
//! a crawl frontier with visit states, and a rolling-window rate budget.
//! Fetching, channels and threads live outside the library; everything
//! here is pure decision and data logic.

pub mod canon;
pub mod crawling;
pub mod frontier;
pub mod network;
pub mod parsing;
pub mod rate;
