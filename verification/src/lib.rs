//! The frontier of a web crawler: a last-in-first-out queue of URLs that queues each
//! distinct URL once, and the settings of a crawl run.
//!
//! - [`frontier`] is the mathematical model: what a frontier holds, what a push and a
//!   take do to it, and the laws that follow.
//! - [`history`] speaks of whole runs, any sequence of pushes and takes, and proves that
//!   every supplied URL comes out exactly once.
//! - [`url_queue`] is the data structure, proved to behave as the model says.
//! - [`crawler`] holds the settings of a run and the frontier it starts from.
//!
//! A queue changes only through `&mut self`. Workers that share one queue keep it behind
//! a single lock, so that a push or a take is one critical section over both the pending
//! URLs and the record of what was seen.

pub mod crawler;
pub mod frontier;
pub mod history;
pub mod url_queue;
