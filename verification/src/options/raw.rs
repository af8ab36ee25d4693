use vstd::prelude::*;

verus! {

/// Saving of raw frames: where, how many, and whether a master frame is made of them.
/// The path is held as text.
#[derive(Debug, Clone)]
pub struct RawFrameOptions {
    pub out_path: String,
    pub frame_cnt: usize,
    pub use_cnt: bool,
    pub create_master: bool,
}

impl Default for RawFrameOptions {
    fn default() -> (r: Self)
        ensures
            r.out_path@ == Seq::<char>::empty(),
            r.frame_cnt == 100,
            r.use_cnt,
            r.create_master,
    {
        RawFrameOptions { out_path: String::new(), frame_cnt: 100, use_cnt: true, create_master: true }
    }
}

} // verus!
