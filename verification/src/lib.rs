//! Analysis engine for CI test logs.
//!
//! The library ingests raw test-runner output in several dialects, extracts a
//! pass/fail/ignored classification per test, detects suspicious duplicate
//! reports, resolves each test of a manifest universe to a status per stage,
//! and evaluates a battery of cross-stage consistency rules that decide
//! whether a submitted deliverable is accepted.

pub mod status;
pub mod text;
pub mod grammar;
pub mod extract;
pub mod single_line;
pub mod nextest;
pub mod format;
pub mod duplicates;
pub mod json;
pub mod resolve;
pub mod report;
pub mod drive;
pub mod search;
pub mod lists;
pub mod deliverable;
pub mod suite;
