use vai::packager::wrap_av1_in_avif;

fn be32(b: &[u8], at: usize) -> usize {
    u32::from_be_bytes([b[at], b[at + 1], b[at + 2], b[at + 3]]) as usize
}

/// A temporal delimiter, then a reduced still-picture sequence header of
/// profile 0, level 1.
fn sample_bitstream() -> Vec<u8> {
    let mut d = vec![0x12, 0x00, 0x0A, 0x0B, 0x18, 0x40];
    d.extend_from_slice(&[0u8; 9]);
    d.extend_from_slice(&[0x32, 0x03, 0xAA, 0xBB, 0xCC]);
    d
}

#[test]
fn box_sizes_sum_to_length_and_offset_points_at_payload() {
    let data = sample_bitstream();
    let out = wrap_av1_in_avif(&data, 64, 48);
    let ftyp = be32(&out, 0);
    assert_eq!(ftyp, 24);
    assert_eq!(&out[4..8], b"ftyp");
    let meta = be32(&out, ftyp);
    assert_eq!(&out[ftyp + 4..ftyp + 8], b"meta");
    let mdat = be32(&out, ftyp + meta);
    assert_eq!(&out[ftyp + meta + 4..ftyp + meta + 8], b"mdat");
    assert_eq!(mdat, 8 + data.len());
    assert_eq!(ftyp + meta + mdat, out.len());

    let iloc = out.windows(4).position(|w| w == b"iloc").unwrap() - 4;
    let offset = be32(&out, iloc + 12 + 10);
    let length = be32(&out, iloc + 12 + 14);
    assert_eq!(offset, ftyp + meta + 8);
    assert_eq!(length, data.len());
    assert_eq!(&out[offset..offset + length], &data[..]);
}

#[test]
fn extents_and_codec_record_are_written() {
    let data = sample_bitstream();
    let out = wrap_av1_in_avif(&data, 64, 48);
    let ispe = out.windows(4).position(|w| w == b"ispe").unwrap();
    assert_eq!(be32(&out, ispe + 8), 64);
    assert_eq!(be32(&out, ispe + 12), 48);
    let av1c = out.windows(4).position(|w| w == b"av1C").unwrap();
    assert_eq!(&out[av1c + 4..av1c + 8], &[0x81, 0x01, 0x06, 0x00]);
}

#[test]
fn unparsable_bitstream_falls_back_to_defaults() {
    for data in [vec![0xFFu8], vec![0x0A, 0xFF, 0xFF], vec![0x0A, 0x01, 0x08]] {
        let out = wrap_av1_in_avif(&data, 8, 8);
        let av1c = out.windows(4).position(|w| w == b"av1C").unwrap();
        assert_eq!(&out[av1c + 4..av1c + 8], &[0x81, 0x00, 0x06, 0x00]);
        assert_eq!(be32(&out, 0) + be32(&out, 24) + 8 + data.len(), out.len());
    }
}

#[test]
fn full_sequence_header_falls_back_to_defaults() {
    // Profile 2, not reduced: profile and level fall back to 0.
    let data = vec![0x0A, 0x02, 0x40, 0x7F];
    let out = wrap_av1_in_avif(&data, 8, 8);
    let av1c = out.windows(4).position(|w| w == b"av1C").unwrap();
    assert_eq!(&out[av1c + 4..av1c + 8], &[0x81, 0x00, 0x06, 0x00]);
}

#[test]
fn metadata_box_has_fixed_size() {
    let out = wrap_av1_in_avif(&[1, 2, 3], 1, 1);
    assert_eq!(be32(&out, 24), 210);
    assert_eq!(out.len(), 24 + 210 + 8 + 3);
}
