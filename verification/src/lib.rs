//! A verified point-cloud pipeline: a schema-driven reader for the PLY
//! point format, and a mesh fusion engine that stamps one primitive
//! template per point and merges the instances into a single mesh buffer.

pub mod fuse;
pub mod model;
pub mod reader;
pub mod scalar;
