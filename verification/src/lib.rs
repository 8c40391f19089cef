//! An interactive directory browser core: listing construction and ordering,
//! a per-directory "last viewed" sidecar store, and the input dispatch rules
//! of the browsing loop. Paths, input lines and file contents are modelled as
//! byte sequences.

pub mod browser;
pub mod bytes;
pub mod listing;
pub mod store;
