//! Verified core of a mold generator for STL-derived geometry.
//!
//! The library holds the discrete logic of mold generation: axis handling,
//! mesh topology, 3MF packaging, command-line parsing, output naming,
//! segmentation planning and the error types shared by the geometry layers.

pub mod axis;
pub mod decimal;
pub mod xml;
pub mod three_mf;
pub mod cli;
pub mod mesh;
pub mod text;
pub mod shell;
pub mod distribution;
pub mod mold;
pub mod wing;
pub mod artifacts;
pub mod kernel;
pub mod loft_closure;
pub mod partition;
