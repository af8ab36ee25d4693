use astra_lite::indi::base64::Base64Decoder;

#[test]
fn base64_test_base64_decoder() {
    fn test(base64: &[u8], result: &[u8]) {
        let mut decoder = Base64Decoder::new(0);
        decoder.add_bytes(base64);
        assert_eq!(&decoder.take_result(), result);
    }
    test(b"", b"");
    test(b"TWFu", b"Man");
    test(b"TWF=", b"Ma");
    test(b"TW==", b"M");
    test(br#"////////"#, &[255, 255, 255, 255, 255, 255]);
    test(br#"///////="#, &[255, 255, 255, 255, 255]);
    test(b"dGVzdCBhIHRlc3Q=", b"test a test");
    test(b"c2hvcnRT", b"shortS");
    test(b"c2hvcnRTMg==", b"shortS2");
    test(b"c2hvcnRTMjM=", b"shortS23");
    test(b"c2hvcnRTMjM0", b"shortS234");
}

#[test]
fn base64_decode_in_chunks_equals_whole() {
    let data = b"dGVzdCBhIHRlc3Q=";
    let mut whole = Base64Decoder::new(0);
    whole.add_bytes(data);
    let mut parts = Base64Decoder::new(0);
    parts.add_bytes(&data[..5]);
    parts.add_bytes(&data[5..11]);
    for b in &data[11..] {
        parts.add_byte(*b);
    }
    assert_eq!(whole.take_result(), parts.take_result());
}

#[test]
fn base64_skips_foreign_bytes_and_clears() {
    let mut decoder = Base64Decoder::new(16);
    decoder.add_bytes(b"TW\nFu");
    assert_eq!(decoder.take_result(), b"Man".to_vec());
    decoder.add_bytes(b"TW");
    decoder.clear(0);
    decoder.add_bytes(b"TWFu");
    assert_eq!(decoder.take_result(), b"Man".to_vec());
}

#[test]
fn decoder_skips_padding_and_decodes_groups() {
    let mut decoder = Base64Decoder::new(0);
    decoder.add_bytes(b"TWFu");
    assert!(&decoder.take_result() == &b"Man");

    let mut decoder = Base64Decoder::new(0);
    decoder.add_bytes(b"TWF=");
    assert!(&decoder.take_result() == &b"Ma");

    let mut decoder = Base64Decoder::new(0);
    decoder.add_bytes(b"TW==");
    assert!(&decoder.take_result() == &b"M");

    let mut decoder = Base64Decoder::new(0);
    decoder.add_bytes(br#"////////"#);
    assert!(&decoder.take_result() == &[255, 255, 255, 255, 255, 255]);

    let mut decoder = Base64Decoder::new(0);
    decoder.add_bytes(br#"///////="#);
    assert!(&decoder.take_result() == &[255, 255, 255, 255, 255]);
}

#[test]
fn decoder_inverts_standard_encoding() {
    let mut decoder = Base64Decoder::new(0);
    decoder.add_bytes(b"AAEC");
    decoder.add_bytes(b"/v8=");
    assert_eq!(decoder.take_result(), vec![0, 1, 2, 254, 255]);
}
