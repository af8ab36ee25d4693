use vstd::prelude::*;

verus! {

/// Program that solves plates.
#[derive(Debug, Copy, Clone, PartialEq, Eq, Structural)]
pub enum PlateSolverType {
    Astrometry,
}

impl Default for PlateSolverType {
    fn default() -> (r: Self)
        ensures
            r == PlateSolverType::Astrometry,
    {
        PlateSolverType::Astrometry
    }
}

} // verus!
