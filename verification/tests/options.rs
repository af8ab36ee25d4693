use astra_lite::options::camera::{Binning, Crop, DeviceAndProp};
use astra_lite::options::{
    AscomAlpacaOptions, CalibrOptions, Gain, GuidingMode, IndiOptions, LiveStackingOptions,
    MountOptions, PlateSolverType, PreviewColorMode, PreviewScale, PreviewSource, RawFrameOptions,
    StarRecognSensitivity,
};
use astra_lite::image::raw::{CfaType, FrameType};

#[test]
fn binning_names_and_ratios() {
    assert_eq!(Binning::Orig.to_str(), "1x1");
    assert_eq!(Binning::Bin2.to_str(), "2x2");
    assert_eq!(Binning::Bin4.to_str(), "4x4");
    assert_eq!(Binning::Orig.get_ratio(), 1);
    assert_eq!(Binning::Bin2.get_ratio(), 2);
    assert_eq!(Binning::Bin4.get_ratio(), 4);
    assert_eq!(Binning::default(), Binning::Orig);
}

#[test]
fn crop_translates_sizes() {
    assert_eq!(Crop::Full.translate(1000), 1000);
    assert_eq!(Crop::P75.translate(1001), 750);
    assert_eq!(Crop::P50.translate(1001), 500);
    assert_eq!(Crop::P33.translate(1001), 333);
    assert_eq!(Crop::P25.translate(1001), 250);
    assert_eq!(Crop::Full.to_str(), "None");
    assert_eq!(Crop::P33.to_str(), "33.3%");
    assert_eq!(Crop::default(), Crop::Full);
}

#[test]
fn device_and_prop_from_text() {
    let d = DeviceAndProp::new("ZWO CCD ASI294MC Pro_CCD2");
    assert_eq!(d.name, "ZWO CCD ASI294MC Pro");
    assert_eq!(d.prop, "CCD2");
    assert_eq!(d.to_string(), "ZWO CCD ASI294MC Pro_CCD2");
    let d = DeviceAndProp::new("QHY CCD");
    assert_eq!(d.name, "QHY CCD");
    assert_eq!(d.prop, "CCD1");
    assert_eq!(d.to_string(), "QHY CCD");
    assert_eq!(d.to_file_name_part(), "QHY CCD");
    let d = DeviceAndProp::new("_CCD2");
    assert_eq!(d.name, "");
    assert_eq!(d.to_string(), "");
    let d = DeviceAndProp { name: "Cam".to_string(), prop: "".to_string() };
    assert_eq!(d.to_string(), "Cam");
    let d = DeviceAndProp::default();
    assert_eq!(d.name, "");
    assert_eq!(d.prop, "");
}

#[test]
fn option_defaults() {
    let indi = IndiOptions::default();
    assert_eq!(indi.address, "localhost");
    assert!(!indi.remote && indi.camera.is_none());
    assert_eq!(AscomAlpacaOptions::default().address, "http://localhost:11111");
    let calibr = CalibrOptions::default();
    assert!(calibr.dark_frame_en && !calibr.flat_frame_en && calibr.hot_pixels);
    let raw = RawFrameOptions::default();
    assert_eq!(raw.frame_cnt, 100);
    assert!(raw.use_cnt && raw.create_master);
    let live = LiveStackingOptions::default();
    assert_eq!(live.save_minutes, 5);
    assert!(live.save_enabled && !live.save_orig && !live.remove_tracks);
    let mount = MountOptions::default();
    assert!(mount.device.is_empty() && mount.speed.is_none());
    assert_eq!(Gain::default(), Gain::Same);
    assert_eq!(GuidingMode::default(), GuidingMode::Disabled);
    assert_eq!(PlateSolverType::default(), PlateSolverType::Astrometry);
    assert_eq!(PreviewColorMode::default(), PreviewColorMode::Rgb);
    assert_eq!(PreviewScale::default(), PreviewScale::FitWindow);
    assert_eq!(PreviewSource::default(), PreviewSource::OrigFrame);
    assert_eq!(StarRecognSensitivity::default(), StarRecognSensitivity::Normal);
}

#[test]
fn frame_type_names() {
    assert_eq!(FrameType::from_str("Flat", FrameType::Lights), FrameType::Flats);
    assert_eq!(FrameType::from_str("Bias", FrameType::Lights), FrameType::Biases);
    assert_eq!(FrameType::from_str("Dark", FrameType::Lights), FrameType::Darks);
    assert_eq!(FrameType::from_str("Light", FrameType::Undef), FrameType::Lights);
    assert_eq!(FrameType::from_str("light", FrameType::Undef), FrameType::Undef);
    assert_eq!(FrameType::Darks.to_str(), "Dark");
    assert_eq!(FrameType::Undef.to_str(), "Undefined");
    assert_eq!(FrameType::Flats.to_readable_str(), "Saving FLAT frames");
    assert_eq!(FrameType::default(), FrameType::Undef);
}

#[test]
fn cfa_names() {
    assert_eq!(CfaType::from_str("RGGB"), CfaType::RGGB);
    assert_eq!(CfaType::from_str("GRBG"), CfaType::GRBG);
    assert_eq!(CfaType::from_str("XYZ"), CfaType::Mono);
    assert_eq!(CfaType::BGGR.to_str(), Some("BGGR"));
    assert_eq!(CfaType::Mono.to_str(), None);
    assert_eq!(CfaType::Mono.get_array().len(), 1);
    assert_eq!(CfaType::RGGB.get_array().len(), 2);
}

use astra_lite::indi::props::{CamCcd, PropParseError, PropPermition, PropState, PropType, SwitchRule};

#[test]
fn indi_property_words() {
    assert_eq!(PropState::from_str("Busy"), Ok(PropState::Busy));
    assert_eq!(PropState::from_str("Ok"), Ok(PropState::Okay));
    assert_eq!(PropState::from_str("Done"), Err(PropParseError::UnknownState("Done".to_string())));
    assert_eq!(PropPermition::from_str(Some("rw")), Ok(PropPermition::RW));
    assert_eq!(PropPermition::from_str(None), Ok(PropPermition::RO));
    assert_eq!(
        PropPermition::from_str(Some("xx")),
        Err(PropParseError::UnknownPermission("xx".to_string()))
    );
    assert_eq!(SwitchRule::from_str("AtMostOne"), Ok(SwitchRule::AtMostOne));
    assert!(SwitchRule::from_str("Many").is_err());
    assert_eq!(PropType::Switch(SwitchRule::OneOfMany).to_str(), "Switch");
    assert_eq!(PropType::Blob.to_str(), "Blob");
    assert_eq!(CamCcd::from_ccd_prop_name("CCD2"), CamCcd::Secondary);
    assert_eq!(CamCcd::from_ccd_prop_name(""), CamCcd::Primary);
}
