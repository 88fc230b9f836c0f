//! Structured-document extraction core: axis-aligned box algebra, character
//! span and line aggregation, layout-region post-processing with
//! non-maximum suppression, line-to-region fusion, element-to-block merging,
//! and title-level clustering.
//!
//! Coordinates are fixed-point integers: callers pick a scale (for example
//! 1/100 of a PDF point per unit) and convert once at the boundary.

pub mod blocks;
pub mod document;
pub mod entities;
pub mod error;
pub mod geom;
pub mod layout;
pub mod lines;
pub mod merge;
pub mod nms;
pub mod page;
pub mod text;
pub mod titles;
