//! Per-repository test collection for a code-quality aggregator: the
//! test-identifier grammar, the merge of test inventories with execution
//! reports, package records, and the decisions of the result cache.
pub mod ansi;
pub mod cache;
pub mod crates_io;
pub mod database;
pub mod miri;
pub mod name;
pub mod output;
pub mod report;
pub mod testcases;
