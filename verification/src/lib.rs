//! Hole maps of sparse raw images.
//!
//! [`scan`] finds the data of a file by asking for seeks, [`data_map`] answers whether a
//! block holds data, and [`map`] writes the map of data and holes as JSON. [`geometry`],
//! [`coverage`] and [`readback`] prove what these promise together.

pub mod coverage;
pub mod data_map;
pub mod decimal;
pub mod geometry;
pub mod map;
pub mod readback;
pub mod scan;
