//! A small library for editing 2D pose schemas: named views, each pairing
//! reference image filenames with labeled anchor points (bones) at
//! normalized 2D coordinates.
//!
//! The core is a schema document model with a lossless XML codec, and an
//! image resource cache that maps decoded images to regions of a shared
//! texture atlas and tracks per-render-pass liveness.

pub mod config;
pub mod decode;
pub mod encode;
pub mod images;
pub mod laws;
pub mod schema;
pub mod text;
pub mod ui_state;
