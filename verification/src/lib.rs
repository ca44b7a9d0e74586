//! Core of a disk-usage treemap viewer: an arena-indexed tree of filesystem
//! entries with bottom-up size aggregation, a cancellable scan state machine
//! that fills the tree from enumerated directory entries, and a squarified
//! layout engine that maps the tree onto proportional rectangles.

pub mod bytes_display;
pub mod filetree;
pub mod mounts;
pub mod scan;
pub mod squarify;
pub mod utils;
