//! Chat-burst detection and cross-recording alignment for broadcast chat logs.
//!
//! Real-valued quantities (rates, smoothed rates, baselines, scale estimates,
//! z-scores, overlap ratios and match scores) are carried as fixed-point
//! integers in micro-units: the integer `x` stands for the real `x / SCALE`.

pub mod cli;
pub mod models;
pub mod chatlog;
pub mod live;
pub mod relations;
pub mod stats;
pub mod order;
pub mod resample;
pub mod scoring;
pub mod peaks;
pub mod event;
pub mod extract;
pub mod offset;
pub mod matching;
pub mod timeline;
