//! Verified core of CiderHub, a small cider-batch logbook: date handling,
//! the status and phase rules derived from a batch's event log, the
//! request-parsing and authentication decisions, and the server-rendered
//! SVG season timeline.

pub mod auth;
pub mod batches;
pub mod binary64;
pub mod calendar;
pub mod charts;
pub mod dashboard;
pub mod dates;
pub mod models;
pub mod numbers;
pub mod seasons;
pub mod text;
pub mod trees;
pub mod units;
