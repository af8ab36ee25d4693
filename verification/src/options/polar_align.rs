use vstd::prelude::*;

verus! {

/// Direction the mount turns in while polar aligning.
#[derive(Debug, Copy, Clone, PartialEq, Eq, Structural)]
pub enum PloarAlignDir {
    East,
    West,
}

} // verus!
