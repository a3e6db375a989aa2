//! The solid kernel backed by the Manifold mesh library.
use vstd::prelude::*;

verus! {

/// The Manifold-backed solid kernel. It has no state: every operation works on the
/// solids it is given.
#[derive(Debug, Default, Clone, Copy)]
pub struct ManifoldKernel;

} // verus!
