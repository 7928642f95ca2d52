//! Finds duplicate episodes and movies in a media library and decides which
//! copies can be removed.
//!
//! - `models`: the items of the library and the files to remove.
//! - `grouping`: splitting a list into groups by group leader.
//! - `analyzer`: which episodes and movies exist in more than one file.
//! - `selector`: which version of a media to keep.
//! - `report`: what is shown for each group, and which files go.
//! - `summary`: the totals over all shows and the removal commands.
//! - `endpoints`: the addresses of the library queries.
//! - `text`: decimal rendering of numbers.

pub mod models;
pub mod grouping;
pub mod analyzer;
pub mod selector;
pub mod text;
pub mod report;
pub mod summary;
pub mod endpoints;
