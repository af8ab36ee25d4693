use vstd::prelude::*;

verus! {

/// How guiding is done: not at all, by the main camera, or by an outside program.
#[derive(Debug, Copy, Clone, PartialEq, Eq, Structural)]
pub enum GuidingMode {
    Disabled,
    MainCamera,
    External,
}

impl Default for GuidingMode {
    fn default() -> (r: Self)
        ensures
            r == GuidingMode::Disabled,
    {
        GuidingMode::Disabled
    }
}

} // verus!
