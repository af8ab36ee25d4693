use vstd::prelude::*;

verus! {

/// Channels a preview shows: all three, or one of them.
#[derive(Debug, Copy, Clone, PartialEq, Eq, Structural)]
pub enum PreviewColorMode {
    Rgb,
    Red,
    Green,
    Blue,
}

impl Default for PreviewColorMode {
    fn default() -> (r: Self)
        ensures
            r == PreviewColorMode::Rgb,
    {
        PreviewColorMode::Rgb
    }
}

/// Frame a preview shows: the one just taken or the stacked result.
#[derive(Debug, Copy, Clone, PartialEq, Eq, Structural)]
pub enum PreviewSource {
    OrigFrame,
    LiveStacking,
}

impl Default for PreviewSource {
    fn default() -> (r: Self)
        ensures
            r == PreviewSource::OrigFrame,
    {
        PreviewSource::OrigFrame
    }
}

/// Scale of a preview: fitted to its area, a fixed part of the original size, or the
/// center and the corners side by side.
#[derive(Debug, Copy, Clone, PartialEq, Eq, Structural)]
pub enum PreviewScale {
    FitWindow,
    Original,
    P75,
    P50,
    P33,
    P25,
    CenterAndCorners,
}

impl Default for PreviewScale {
    fn default() -> (r: Self)
        ensures
            r == PreviewScale::FitWindow,
    {
        PreviewScale::FitWindow
    }
}

} // verus!
