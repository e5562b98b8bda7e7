//! Verified core of a viewer for VRChat output logs: parsing log files into
//! records, keeping a bounded, ordered cache of records, filtering and paging
//! them, and choosing which log files to follow.

pub mod config;
pub mod log_entry;
pub mod message;
pub mod state;
pub mod stream;
pub mod text;
pub mod view;
pub mod vrc;
