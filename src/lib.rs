//! Rasterizes a regular hexagon (pointy-top or flat-top) into an RGBA buffer.
//!
//! The geometry is stated over exact real numbers; the executable code decides
//! every pixel with exact integer arithmetic on a rational radius, and
//! `geometry::lemma_is_cut_matches_lines` ties the two together.
pub mod geometry;
pub mod hexagon;
pub mod raster;
