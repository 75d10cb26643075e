//! The crawling logic of a small web scraper: which URLs a fetched page leads
//! to, what text of it is stored, which images are recorded, which host-level
//! links are counted for ranking, and the crawler's throughput counters.

pub mod address;
pub mod text;
pub mod body;
pub mod stats;
pub mod linkset;
pub mod html;
pub mod page;
