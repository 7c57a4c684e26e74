//! Finds the time ranges of a video in which a near-monochrome marker frame is
//! shown, first on a coarse sampling and then to sub-second precision.
pub mod text;
pub mod timestamp;
pub mod coalesce;
pub mod classify;
pub mod frames;
pub mod search;
pub mod cache;
pub mod clips;
pub mod catalog;
