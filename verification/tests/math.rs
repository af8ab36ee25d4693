use astra_lite::math::{IirFilter, IirFilterCoeffs};

#[test]
fn iir_filter_steps() {
    let coeffs = IirFilterCoeffs::new(192);
    let mut f = IirFilter::new();
    // the first sample passes through
    assert_eq!(f.filter(&coeffs, 1000), 1000);
    // (64 * 0 + 192 * 1000 + 128) / 256 = 750
    assert_eq!(f.filter(&coeffs, 0), 750);
}

#[test]
fn iir_filter_both_ways() {
    let coeffs = IirFilterCoeffs::new(128);
    let mut f = IirFilter::new();
    let src = [0u16, 256, 0];
    let mut dst = [0u16; 3];
    f.filter_direct_and_revert_u16(&coeffs, &src, &mut dst);
    // forward: 0, 128, 64; backward: 64, 128, 0; means: 32, 128, 32
    assert_eq!(dst, [32, 128, 32]);
    // a flat row stays flat
    let src = [500u16; 5];
    let mut dst = [0u16; 5];
    f.filter_direct_and_revert_u16(&coeffs, &src, &mut dst);
    assert_eq!(dst, [500; 5]);
}
