pub mod image;
pub mod indi;
pub mod number;
pub mod options;
pub mod text;
pub mod io_utils;
pub mod image_processing;
pub mod phd2_api;
pub mod math;
