//! Core of an RSS enclosure downloader.
//!
//! The pipeline runs in four stages: parse feed bytes into raw entries,
//! extract the complete entries into a title-sorted item list, turn a
//! user's selection into an ascending download plan, and account for the
//! bytes of each download against the declared content length.

pub mod download;
pub mod ext;
pub mod extract;
pub mod feed;
pub mod order;
pub mod select;
