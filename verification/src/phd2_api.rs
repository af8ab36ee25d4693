use vstd::prelude::*;

verus! {

/// Connection to the PHD2 guiding program.
pub struct Phd2Api {}

impl Phd2Api {
    pub fn new() -> (r: Self)
        ensures
            r == (Phd2Api {}),
    {
        Self {}
    }
}

} // verus!
