//! Tail-following WebM stream parser and multiplexer.
//!
//! The library ingests the bytes of a WebM/Matroska recording that is still
//! being appended to, parses them into typed tags, memoizes the header so a
//! late joiner receives a valid prelude, and fans completed Clusters out to
//! independently paced subscribers, rebasing Cluster timestamps so each
//! subscriber's playback starts at zero.

pub mod channel;
pub mod ebml;
pub mod encode;
pub mod follower;
pub mod parse;
pub mod protocol;
pub mod ranges;
pub mod recordings;
pub mod registry;
pub mod tags;
