use vstd::prelude::*;

verus! {

/// Calibration of light frames: the library of darks, the flat frame and the search
/// of hot pixels. Paths are held as text.
#[derive(Debug, Clone)]
pub struct CalibrOptions {
    pub dark_library_path: String,
    pub dark_frame_en: bool,
    pub flat_frame_en: bool,
    pub flat_frame_fname: String,
    pub hot_pixels: bool,
}

impl Default for CalibrOptions {
    fn default() -> (r: Self)
        ensures
            r.dark_library_path@ == Seq::<char>::empty(),
            r.dark_frame_en,
            !r.flat_frame_en,
            r.flat_frame_fname@ == Seq::<char>::empty(),
            r.hot_pixels,
    {
        CalibrOptions {
            dark_library_path: String::new(),
            dark_frame_en: true,
            flat_frame_en: false,
            flat_frame_fname: String::new(),
            hot_pixels: true,
        }
    }
}

} // verus!
