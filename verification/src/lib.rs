//! Torrent tooling: a magnet-link crawler and a torrent download manager.
//!
//! `crawl` decides which pages a crawl fetches and what it takes from them; `app` keeps the state
//! of the download manager. The other modules hold what these two rest on. Fetching pages, running
//! aria2c and 7z, and reading and writing files is left to the caller. `crawl_parts` states what
//! each part of the crawler does, `crawl_laws`, `reach` and `resume` state what holds of a crawl and
//! of a session as a whole, and `trusted` lists what is taken for granted of other crates.

pub mod ansi;
pub mod app;
pub mod archive;
pub mod aria2;
pub mod config;
pub mod crawl;
pub mod crawl_laws;
pub mod crawl_parts;
pub mod failure;
pub mod magnet;
pub mod naming;
pub mod numbers;
pub mod progress;
pub mod reach;
pub mod resume;
pub mod sizes;
pub mod text;
pub mod torrent;
pub mod totals;
pub mod trusted;
