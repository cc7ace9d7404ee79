//! Detection-to-ring pipeline for a circular game board: non-maximum
//! suppression over detected boxes, ring/center classification, angular
//! ordering, and an index-based circular list that stores the finished ring.
//!
//! Confidences, IoU thresholds and tolerances are fixed-point values in
//! millionths (`SCALE` stands for 1.0), so every comparison is exact.
use vstd::prelude::*;

pub mod bbox;
pub mod catalog;
pub mod classify;
pub mod config;
pub mod detection;
pub mod elements;
pub mod nms;
pub mod ring;
pub mod sorting;
pub mod template;

verus! {

/// Fixed-point units in one whole: a confidence of 1.0 is `SCALE`.
pub const SCALE: u32 = 1_000_000;

} // verus!
