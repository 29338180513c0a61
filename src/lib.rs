//! Breadth-first hop-distance layering of encyclopedia articles.
//!
//! The library holds the logic of the crawl: the layered, redirect-aware
//! link calculator, the retry and admission policy of the fetch client, the
//! decoding of endpoint names for display and the rendering of the report.
//! Network access, task spawning and HTML parsing stand outside it and hand
//! their results in as plain values.

pub mod article;
pub mod client;
pub mod links;
pub mod report;
pub mod tables;
pub mod url;
