//! A small web-scraping library: a job queue for worker threads, the board
//! on which fetched pages are collected, request planning, and CSS-selector
//! based extraction of text and markup from HTML.
pub mod fetch_state;
pub mod parsers;
pub mod quotes;
pub mod request;
pub mod structs;

pub use fetch_state::FetchState;
pub use request::{default_agent, plan_request, HttpMethod, Payload, RequestPlan, DEFAULT_TIMEOUT_SECS};
pub use structs::{check_thread_count, indexed_jobs, FetchError, JobStatus, Next, Queue, ScrapeJob};
