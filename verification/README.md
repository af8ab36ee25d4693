# astra_lite

The image logic of an astrophotography program (raw frames, calibration, stacking,
star detection, FITS files), its reading of the INDI driver lists and BLOBs, and its
settings, written in Verus: the functions in `src/` state their behaviour in contracts,
and Verus proves them.

Layout:

- `src/image/` — raw frames (`raw.rs`: hot pixels, flats, darks, demosaicing, bad-pixel
  repair and the bad-pixel list file), images and layers with bilinear sampling (`image.rs`), histograms, previews,
  a FITS reader and writer of its own (`simple_fits.rs`, `io.rs`; reading back what was
  written in `fits_lines.rs` and `fits_round_trip.rs`), the compressed level
  stream of the internal raw format (`raw_codec.rs`), stacking of raw calibration frames
  (`raw_stacker.rs`) and of turned and shifted light frames (`stacker.rs`), star
  detection (`stars.rs`: star regions, backgrounds and borders, overexposure;
  `star_list.rs`: the search over possible centres and the brightest-first order),
  flood fill (`utils.rs`) and image info text (`info.rs`).
- `src/image_processing.rs` — calibration of a light frame by a master dark and flat.
- `src/indi/` — base64 decoding of BLOBs (and the standard encoding it inverts), the INDI
  driver list (`drivers.rs`, read from XML documents in `drivers_xml.rs`) and property
  enumerations.
- `src/options/` — settings and their conversions.
- `src/io_utils.rs`, `src/text.rs`, `src/number.rs`, `src/math.rs` — file name
  generation, text and number helpers, an integer low-pass filter.
- `src/phd2_api.rs` — the handle of the PHD2 guider.

Calls into outside crates (`rayon`, `bitstream-io`, `xmltree`, `str::to_lowercase` and a few of std)
stand behind small trusted wrappers whose contracts say what the library relies on.

`app/` holds the parts Verus does not see: the program's entry, file input,
serde copies of settings, and the floating-point computations (gamma tables, the
fitted hot-pixel border, sexagesimal numbers, stack transforms).

`tests/` runs the library on concrete values.
