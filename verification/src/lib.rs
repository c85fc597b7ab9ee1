//! Collection of execution-time data for the workflows of a repository:
//! reading the pagination header, walking the pages of a run list inside a
//! window of dates, gathering one timing record per run, and joining runs
//! and timings into report rows.

pub mod collector;
pub mod dates;
pub mod link;
pub mod model;
pub mod paginator;
pub mod summary;
pub mod text;
