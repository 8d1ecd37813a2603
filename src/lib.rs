//! Core of a bounding-box label review tool: the sidecar label format, the
//! persisted set of edited images, class statistics, the image file list and
//! its navigation, and a bounded, neighbour-aware image cache.
pub mod cache;
pub mod export;
pub mod imaging;
pub mod labels;
pub mod modified;
pub mod names;
pub mod navigator;
pub mod session;
pub mod stats;
pub mod text;
