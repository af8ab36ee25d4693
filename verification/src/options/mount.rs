use vstd::prelude::*;

verus! {

/// Mount device and how its axes are turned.
#[derive(Debug, Clone)]
pub struct MountOptions {
    pub device: String,
    pub inv_ns: bool,
    pub inv_we: bool,
    pub speed: Option<String>,
}

impl Default for MountOptions {
    fn default() -> (r: Self)
        ensures
            r.device@ == Seq::<char>::empty(),
            !r.inv_ns,
            !r.inv_we,
            r.speed is None,
    {
        MountOptions { device: String::new(), inv_ns: false, inv_we: false, speed: None }
    }
}

} // verus!
