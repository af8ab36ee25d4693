use astra_lite::image::raw_codec::{
    compress_levels, decompress_levels, BitSink, BitSource, ValuesCompressor, ValuesDecompressor,
};

#[test]
fn levels_round_trip_in_whole_blocks() {
    let data: Vec<u16> = (0..32u16).map(|v| v * 1000 + (v % 3)).collect();
    let bytes = compress_levels(&data).unwrap();
    let back = decompress_levels(&bytes, data.len()).unwrap();
    assert_eq!(back, data);
}

#[test]
fn flat_levels_compress_to_one_bit_each() {
    // one block of eight equal levels: the first delta is the level, the rest zero
    let data = vec![5u16; 8];
    let bytes = compress_levels(&data).unwrap();
    // 5 bits of width (3 - 1), 8 values of 3 bits, then 32 zero bits: 61 bits, 7 whole bytes
    assert_eq!(bytes.len(), 7);
    assert_eq!(bytes[0], 0b00010_101);
    assert_eq!(decompress_levels(&bytes, 8).unwrap(), data);
}

#[test]
fn levels_of_a_last_partial_block_are_not_stored() {
    let bytes = compress_levels(&[1, 2, 3]).unwrap();
    assert_eq!(bytes, vec![0, 0, 0, 0]);
    assert_eq!(decompress_levels(&bytes, 3).unwrap(), vec![0, 0, 0]);
}

#[test]
fn decompressing_too_few_bytes_fails() {
    let data: Vec<u16> = (0..16u16).map(|v| v * 4000).collect();
    let bytes = compress_levels(&data).unwrap();
    assert!(decompress_levels(&bytes[..3], 16).is_err());
    assert!(decompress_levels(&[], 1).is_err());
    assert_eq!(decompress_levels(&[], 0).unwrap(), Vec::<u16>::new());
}

#[test]
fn compressor_and_decompressor_values() {
    let values = [0u32, u32::MAX, 7, 7, 123_456_789, 1, 0, 42, 9, 10];
    let mut sink = BitSink::new();
    let mut comp = ValuesCompressor::new();
    for v in values {
        comp.write_u32(v, &mut sink).unwrap();
    }
    comp.flush(&mut sink).unwrap();
    // enough trailing bits that the last block's bits are all in whole bytes
    comp.flush(&mut sink).unwrap();
    for _ in 0..8 {
        comp.write_u32(0, &mut sink).unwrap();
    }
    let bytes = sink.into_bytes();
    let mut source = BitSource::new(&bytes);
    let mut dec = ValuesDecompressor::new();
    for v in values {
        assert_eq!(dec.read_u32(&mut source).unwrap(), v);
    }
}
