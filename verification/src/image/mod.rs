pub mod histogram;
pub mod image;
pub mod io;
pub mod preview;
pub mod raw;
pub mod simple_fits;
pub mod stars;
pub mod star_list;
pub mod utils;
pub mod raw_stacker;
pub mod info;
pub mod raw_codec;
pub mod stacker;
pub mod fits_lines;
pub mod fits_round_trip;
pub mod image_laws;
pub mod hot_laws;
