//! Verified catalogs for tagged files and directory bookmarks.
//!
//! Each catalog keeps an ordered list of keys in lockstep with a lookup map
//! from key to record. The contracts of the operations say exactly how both
//! change, and that the two never drift apart.

pub mod alias;
pub mod bookmark;
pub mod clock;
pub mod error;
pub mod laws;
pub mod session;
pub mod tags;
pub mod text;
