//! A small task-tracking library: an in-memory record store with
//! date-bucketing rules, and a line-oriented text codec that persists it.
//!
//! All calendar-day comparisons are made on UTC days computed from Unix
//! timestamps; the current time is always passed in by the caller, so the
//! library itself never reads a clock.

use vstd::prelude::*;

mod nums;
pub mod codec;
pub mod ds;
pub mod ops;
pub mod report;

