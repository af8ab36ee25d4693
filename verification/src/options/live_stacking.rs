use vstd::prelude::*;

verus! {

/// Live stacking: what is saved, how often, and where. The directory is held as text.
#[derive(Debug, Clone)]
pub struct LiveStackingOptions {
    pub save_orig: bool,
    pub save_minutes: usize,
    pub save_enabled: bool,
    pub out_dir: String,
    pub remove_tracks: bool,
}

impl Default for LiveStackingOptions {
    fn default() -> (r: Self)
        ensures
            !r.save_orig,
            r.save_minutes == 5,
            r.save_enabled,
            r.out_dir@ == Seq::<char>::empty(),
            !r.remove_tracks,
    {
        LiveStackingOptions {
            save_orig: false,
            save_minutes: 5,
            save_enabled: true,
            out_dir: String::new(),
            remove_tracks: false,
        }
    }
}

} // verus!
