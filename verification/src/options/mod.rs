pub mod ascom_alpaca;
pub mod calibration;
pub mod camera;
pub mod guiding;
pub mod indi;
pub mod live_stacking;
pub mod mount;
pub mod plate_solver;
pub mod polar_align;
pub mod preview;
pub mod quality;
pub mod raw;

pub use ascom_alpaca::AscomAlpacaOptions;
pub use calibration::CalibrOptions;
pub use camera::{Binning, Crop, DeviceAndProp};
pub use guiding::GuidingMode;
pub use indi::IndiOptions;
pub use live_stacking::LiveStackingOptions;
pub use mount::MountOptions;
pub use plate_solver::PlateSolverType;
pub use polar_align::PloarAlignDir;
pub use preview::{PreviewColorMode, PreviewScale, PreviewSource};
pub use quality::StarRecognSensitivity;
pub use raw::RawFrameOptions;

use vstd::prelude::*;

verus! {

/// Camera gain to use: the current one, the minimum, a quarter steps of the range, or the maximum.
#[derive(Debug, Copy, Clone, PartialEq, Eq, Structural)]
pub enum Gain {
    Same,
    Min,
    P25,
    P50,
    P75,
    Max,
}

impl Default for Gain {
    fn default() -> (r: Self)
        ensures
            r == Gain::Same,
    {
        Gain::Same
    }
}

} // verus!
