use vstd::prelude::*;

verus! {

/// How sensitive the recognition of stars is.
#[derive(Debug, Copy, Clone, PartialEq, Eq, Structural)]
pub enum StarRecognSensitivity {
    Low,
    Normal,
    High,
}

impl Default for StarRecognSensitivity {
    fn default() -> (r: Self)
        ensures
            r == StarRecognSensitivity::Normal,
    {
        StarRecognSensitivity::Normal
    }
}

} // verus!
