pub mod transition;
pub mod profile_utils;
pub mod candidates;
pub mod scoring;
pub mod floors;
pub mod continuity;
pub mod ranking;
pub mod scheduler;
