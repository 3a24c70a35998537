use pcx::header::Header;
use pcx::palette::{copy_embedded_palette, read_trailing_palette};
use pcx::pixels::unpack_in_place;
use pcx::{ByteStream, Decompressor, Error, Version};

fn sample_header() -> Vec<u8> {
    let mut h = vec![0u8; 128];
    h[0] = 0x0A;
    h[1] = 5;
    h[2] = 1;
    h[3] = 8;
    // x: 0x0102 ..= 0x0304, y: 7 ..= 7
    h[4] = 0x02;
    h[5] = 0x01;
    h[6] = 7;
    h[8] = 0x04;
    h[9] = 0x03;
    h[10] = 7;
    // dpi 300 x 72
    h[12] = 0x2C;
    h[13] = 0x01;
    h[14] = 72;
    for i in 0..48 {
        h[16 + i] = (3 * i + 1) as u8;
    }
    h[65] = 1;
    // width 0x0203 = 515, lane length 516 = 0x0204
    h[66] = 0x04;
    h[67] = 0x02;
    h
}

fn header_with(at: usize, value: u8) -> Vec<u8> {
    let mut h = sample_header();
    h[at] = value;
    h
}

fn layout(depth: u8, planes: u8, width: u16, lane_length: u16) -> Vec<u8> {
    let mut h = sample_header();
    h[3] = depth;
    h[65] = planes;
    h[4] = 0;
    h[5] = 0;
    h[8..10].copy_from_slice(&(width - 1).to_le_bytes());
    h[66..68].copy_from_slice(&lane_length.to_le_bytes());
    h
}

fn pack(pixels: &[u8], depth: u8) -> Vec<u8> {
    let per_byte = 8 / depth as usize;
    let mut lane = vec![0u8; (pixels.len() + per_byte - 1) / per_byte];
    for (p, value) in pixels.iter().enumerate() {
        lane[p / per_byte] |= value << (8 - depth as usize * (p % per_byte + 1));
    }
    lane
}

fn unpacked(lane: &[u8], depth: u8, width: usize) -> Vec<u8> {
    let mut buffer = vec![0xEEu8; width];
    let offset = width - lane.len();
    buffer[offset..].copy_from_slice(lane);
    unpack_in_place(&mut buffer, depth);
    buffer
}

fn table() -> Vec<u8> {
    (0..768usize).map(|i| (i * 7 + i / 256) as u8).collect()
}

fn palette_behind(preceding: usize, limit: usize) -> Result<(usize, Vec<u8>), Error> {
    let mut file: Vec<u8> = (0..preceding).map(|i| (i * 31 + 5) as u8).collect();
    file.push(0x0C);
    file.extend(table());
    let mut out = vec![0u8; 768];
    let n = read_trailing_palette(ByteStream::with_limit(file, limit), &mut out)?;
    Ok((n, out))
}

#[test]
fn header_fields_are_read_little_endian() {
    let h = Header::parse(&sample_header()).unwrap();
    assert_eq!(h.version, Version::V5);
    assert_eq!(h.is_compressed, true);
    assert_eq!(h.bit_depth, 8);
    assert_eq!(h.start, (0x0102, 7));
    assert_eq!(h.size, (0x0304 - 0x0102 + 1, 1));
    assert_eq!(h.size, (515, 1));
    assert_eq!(h.dpi, (300, 72));
    assert_eq!(h.number_of_color_planes, 1);
    assert_eq!(h.lane_length, 516);
    for i in 0..16 {
        for k in 0..3 {
            assert_eq!(h.palette[i][k], (3 * (3 * i + k) + 1) as u8);
        }
    }
}

#[test]
fn header_ignores_what_follows_it() {
    let mut bytes = sample_header();
    bytes.extend([1, 2, 3]);
    let h = Header::parse(&bytes).unwrap();
    assert_eq!(h.size, (515, 1));
}

#[test]
fn header_versions() {
    let expected = [
        (0u8, Version::V0),
        (2, Version::V2),
        (3, Version::V3),
        (4, Version::V4),
        (5, Version::V5),
    ];
    for (tag, version) in expected {
        assert_eq!(Header::parse(&header_with(1, tag)).unwrap().version, version);
    }
    for tag in [1u8, 6, 7, 255] {
        assert_eq!(Header::parse(&header_with(1, tag)).unwrap_err(), Error::InvalidData);
    }
}

#[test]
fn header_encoding_flag() {
    assert_eq!(Header::parse(&header_with(2, 0)).unwrap().is_compressed, false);
    assert_eq!(Header::parse(&header_with(2, 1)).unwrap().is_compressed, true);
    assert_eq!(Header::parse(&header_with(2, 2)).unwrap_err(), Error::InvalidData);
}

#[test]
fn header_that_is_too_short() {
    let bytes = sample_header();
    assert_eq!(Header::parse(&bytes[..127]).unwrap_err(), Error::UnexpectedEof);
    assert_eq!(Header::parse(&[]).unwrap_err(), Error::UnexpectedEof);
    // Too short wins over a wrong magic byte.
    assert_eq!(Header::parse(&[0u8; 5]).unwrap_err(), Error::UnexpectedEof);
}

#[test]
fn header_without_magic_byte() {
    assert_eq!(Header::parse(&header_with(0, 0x0B)).unwrap_err(), Error::InvalidData);
    assert_eq!(Header::parse(&header_with(0, 0)).unwrap_err(), Error::InvalidData);
}

#[test]
fn header_with_end_before_start() {
    // x end 0x0104 is fine, 0x0101 lies before the start 0x0102.
    let mut h = sample_header();
    h[8] = 0x01;
    h[9] = 0x01;
    assert_eq!(Header::parse(&h).unwrap_err(), Error::InvalidData);
    // y end 6 lies before the start 7.
    assert_eq!(Header::parse(&header_with(10, 6)).unwrap_err(), Error::InvalidData);
}

#[test]
fn header_with_too_many_pixels() {
    // 0 ..= 65535 would be 65536 pixels.
    let mut h = layout(1, 1, 1, 2);
    h[8] = 0xFF;
    h[9] = 0xFF;
    h[66] = 0x00;
    h[67] = 0x20;
    assert_eq!(Header::parse(&h).unwrap_err(), Error::InvalidData);
    // 0 ..= 65534 is the widest image; at one bit per pixel its lanes take 8192 bytes.
    h[8] = 0xFE;
    let parsed = Header::parse(&h).unwrap();
    assert_eq!(parsed.size.0, 65535);
    assert_eq!(parsed.lane_proper_length(), 8192);
    assert_eq!(parsed.lane_padding(), 0);
}

#[test]
fn header_layouts() {
    let supported = [(1u8, 1u8), (2, 1), (4, 1), (8, 1), (1, 3), (1, 4), (8, 3)];
    for depth in 0..=9u8 {
        for planes in 0..=5u8 {
            let lane = (16 * depth as u16 + 7) / 8;
            let result = Header::parse(&layout(depth, planes, 16, lane + lane % 2));
            if supported.contains(&(depth, planes)) {
                let h = result.unwrap();
                assert_eq!((h.bit_depth, h.number_of_color_planes), (depth, planes));
            } else {
                assert_eq!(result.unwrap_err(), Error::InvalidData);
            }
        }
    }
}

#[test]
fn header_lane_length_must_be_the_rounded_row() {
    // 141 pixels of 8 bits: 141 bytes, stored as 142.
    assert!(Header::parse(&layout(8, 1, 141, 142)).is_ok());
    for wrong in [0u16, 140, 141, 143, 144] {
        assert_eq!(Header::parse(&layout(8, 1, 141, wrong)).unwrap_err(), Error::InvalidData);
    }
    // 9 pixels of 4 bits: 5 bytes, stored as 6.
    assert!(Header::parse(&layout(4, 1, 9, 6)).is_ok());
    assert_eq!(Header::parse(&layout(4, 1, 9, 5)).unwrap_err(), Error::InvalidData);
    // 16 pixels of 1 bit: 2 bytes, stored as 2.
    assert!(Header::parse(&layout(1, 1, 16, 2)).is_ok());
    assert_eq!(Header::parse(&layout(1, 1, 16, 3)).unwrap_err(), Error::InvalidData);
}

#[test]
fn lane_lengths() {
    let cases = [
        // depth, width, proper length, padding
        (8u8, 141u16, 141u16, 1u16),
        (8, 142, 142, 0),
        (8, 1, 1, 1),
        (4, 1, 1, 1),
        (4, 9, 5, 1),
        (4, 4, 2, 0),
        (2, 7, 2, 0),
        (2, 9, 3, 1),
        (1, 1, 1, 1),
        (1, 8, 1, 1),
        (1, 9, 2, 0),
        (1, 17, 3, 1),
    ];
    for (depth, width, proper, padding) in cases {
        let h = Header::parse(&layout(depth, 1, width, proper + padding)).unwrap();
        assert_eq!(h.lane_proper_length(), proper);
        assert_eq!(h.lane_padding(), padding);
        assert_eq!(h.lane_length, proper + padding);
    }
}

#[test]
fn palette_lengths() {
    let cases = [
        (1u8, 1u8, Some(2u16)),
        (2, 1, Some(4)),
        (4, 1, Some(16)),
        (8, 1, Some(256)),
        (1, 3, Some(8)),
        (1, 4, Some(16)),
        (8, 3, None),
    ];
    for (depth, planes, colors) in cases {
        let lane = (16 * depth as u16 + 7) / 8;
        let h = Header::parse(&layout(depth, planes, 16, lane + lane % 2)).unwrap();
        assert_eq!(h.palette_length(), colors);
    }
}

#[test]
fn header_is_loaded_from_a_stream() {
    let mut bytes = sample_header();
    bytes.extend([9, 8, 7]);
    let mut stream = ByteStream::new(bytes.clone());
    let h = Header::load(&mut stream).unwrap();
    assert_eq!(h.size, (515, 1));
    assert_eq!(stream.next_byte(), Some(9));

    let mut slow = ByteStream::with_limit(bytes, 5);
    assert_eq!(Header::load(&mut slow).unwrap().lane_length, 516);
    assert_eq!(slow.next_byte(), Some(9));
}

#[test]
fn short_stream_is_read_to_its_end() {
    let mut stream = ByteStream::new(vec![0x0A; 100]);
    assert_eq!(Header::load(&mut stream).unwrap_err(), Error::UnexpectedEof);
    assert_eq!(stream.next_byte(), None);
    let mut stream = ByteStream::new(header_with(0, 1));
    assert_eq!(Header::load(&mut stream).unwrap_err(), Error::InvalidData);
    assert_eq!(stream.next_byte(), None);
}

#[test]
fn stream_reads_forward() {
    let mut stream = ByteStream::new(vec![1, 2, 3, 4, 5]);
    let mut buf = [0u8; 2];
    assert_eq!(stream.read(&mut buf), 2);
    assert_eq!(buf, [1, 2]);
    assert_eq!(stream.next_byte(), Some(3));
    let mut buf = [9u8; 4];
    assert_eq!(stream.read(&mut buf), 2);
    assert_eq!(buf, [4, 5, 9, 9]);
    assert_eq!(stream.read(&mut buf), 0);
    assert_eq!(buf, [4, 5, 9, 9]);
    assert_eq!(stream.next_byte(), None);
    assert_eq!(stream.read(&mut []), 0);
}

#[test]
fn stream_hands_out_pieces() {
    let mut stream = ByteStream::with_limit(vec![1, 2, 3, 4, 5], 2);
    let mut buf = [0u8; 4];
    assert_eq!(stream.read(&mut buf), 2);
    assert_eq!(buf, [1, 2, 0, 0]);
    assert_eq!(stream.read(&mut buf[..1]), 1);
    assert_eq!(buf, [3, 2, 0, 0]);
    assert_eq!(stream.read(&mut buf), 2);
    assert_eq!(buf, [4, 5, 0, 0]);
    assert_eq!(stream.read(&mut buf), 0);

    let mut single = ByteStream::with_limit(vec![7, 8], 0);
    assert_eq!(single.read(&mut buf), 1);
    assert_eq!(single.read(&mut buf), 1);
    assert_eq!(buf, [8, 5, 0, 0]);
}

#[test]
fn stream_fills_a_buffer_from_pieces() {
    let mut stream = ByteStream::with_limit((0..10).collect(), 3);
    let mut buf = [0u8; 7];
    assert_eq!(stream.read_exact(&mut buf), Ok(()));
    assert_eq!(buf, [0, 1, 2, 3, 4, 5, 6]);
    let mut buf = [0xEEu8; 5];
    assert_eq!(stream.read_exact(&mut buf), Err(Error::UnexpectedEof));
    assert_eq!(buf, [7, 8, 9, 0xEE, 0xEE]);
    assert_eq!(stream.next_byte(), None);
    assert_eq!(stream.read_exact(&mut []), Ok(()));
}

#[test]
fn decoder_passes_single_bytes() {
    let mut d = Decompressor::new(ByteStream::new(vec![0, 1, 0xBF]));
    assert_eq!(d.read_u8(), Ok(0));
    assert_eq!(d.read_u8(), Ok(1));
    assert_eq!(d.read_u8(), Ok(0xBF));
    assert_eq!(d.read_u8(), Err(Error::UnexpectedEof));
}

#[test]
fn decoder_repeats_runs() {
    let mut d = Decompressor::new(ByteStream::new(vec![0xC3, 7, 0xC1, 0xFF, 5, 0xFF, 2]));
    let mut buf = [0u8; 5];
    assert_eq!(d.read_exact(&mut buf), Ok(()));
    assert_eq!(buf, [7, 7, 7, 0xFF, 5]);
    let mut buf = [0u8; 63];
    assert_eq!(d.read_exact(&mut buf), Ok(()));
    assert_eq!(buf, [2u8; 63]);
    assert_eq!(d.read_u8(), Err(Error::UnexpectedEof));
}

#[test]
fn decoder_keeps_a_run_between_reads() {
    let mut d = Decompressor::new(ByteStream::new(vec![0xC5, 9, 4]));
    let mut buf = [0u8; 2];
    assert_eq!(d.read_exact(&mut buf), Ok(()));
    assert_eq!(buf, [9, 9]);
    assert_eq!(d.read_u8(), Ok(9));
    assert_eq!(d.read_exact(&mut buf), Ok(()));
    assert_eq!(buf, [9, 9]);
    assert_eq!(d.read_u8(), Ok(4));
}

#[test]
fn decoder_passes_over_empty_runs() {
    let mut d = Decompressor::new(ByteStream::new(vec![0xC0, 1, 0xC0, 2, 3, 0xC0, 4]));
    assert_eq!(d.read_u8(), Ok(3));
    assert_eq!(d.read_u8(), Err(Error::UnexpectedEof));
}

#[test]
fn decoder_fails_on_a_run_without_value() {
    let mut d = Decompressor::new(ByteStream::new(vec![1, 0xC2]));
    assert_eq!(d.read_u8(), Ok(1));
    assert_eq!(d.read_u8(), Err(Error::UnexpectedEof));
    let mut d = Decompressor::new(ByteStream::new(vec![1, 2]));
    let mut buf = [0u8; 3];
    assert_eq!(d.read_exact(&mut buf), Err(Error::UnexpectedEof));
}

#[test]
fn decoder_reads_nothing_into_an_empty_buffer() {
    let mut d = Decompressor::new(ByteStream::new(Vec::new()));
    assert_eq!(d.read_exact(&mut []), Ok(()));
}

#[test]
fn decoder_takes_no_byte_before_it_is_needed() {
    // Two lanes of three bytes, then the marker of a palette.
    let mut d = Decompressor::new(ByteStream::new(vec![0xC3, 1, 5, 0xC2, 6, 0x0C, 0xAA]));
    let mut lane = [0u8; 3];
    assert_eq!(d.read_exact(&mut lane), Ok(()));
    assert_eq!(lane, [1, 1, 1]);
    assert_eq!(d.read_exact(&mut lane), Ok(()));
    assert_eq!(lane, [5, 6, 6]);
    let mut stream = d.finish();
    assert_eq!(stream.next_byte(), Some(0x0C));
    assert_eq!(stream.next_byte(), Some(0xAA));
}

#[test]
fn finish_drops_the_rest_of_a_run() {
    let mut d = Decompressor::new(ByteStream::new(vec![0xC4, 1, 8]));
    assert_eq!(d.read_u8(), Ok(1));
    let mut stream = d.finish();
    assert_eq!(stream.next_byte(), Some(8));
}

#[test]
fn unpacks_one_bit_pixels() {
    assert_eq!(unpacked(&[0b1011_0001], 1, 8), vec![1, 0, 1, 1, 0, 0, 0, 1]);
    assert_eq!(unpacked(&[0b1011_0001, 0b0100_0000], 1, 10), vec![1, 0, 1, 1, 0, 0, 0, 1, 0, 1]);
    assert_eq!(unpacked(&[0b1000_0000], 1, 1), vec![1]);
    assert_eq!(unpacked(&[0b0111_1111], 1, 1), vec![0]);
}

#[test]
fn unpacks_two_bit_pixels() {
    assert_eq!(unpacked(&[0b11_00_01_10], 2, 4), vec![3, 0, 1, 2]);
    assert_eq!(unpacked(&[0b11_00_01_10, 0b10_01_00_00], 2, 6), vec![3, 0, 1, 2, 2, 1]);
    assert_eq!(unpacked(&[0b01_11_11_11], 2, 1), vec![1]);
}

#[test]
fn unpacks_four_bit_pixels() {
    assert_eq!(unpacked(&[0xB3], 4, 2), vec![0xB, 0x3]);
    assert_eq!(unpacked(&[0xB3, 0x7F], 4, 3), vec![0xB, 0x3, 0x7]);
    assert_eq!(unpacked(&[0xF0], 4, 1), vec![0xF]);
}

#[test]
fn unpacks_nothing_from_an_empty_row() {
    let mut buffer: Vec<u8> = Vec::new();
    unpack_in_place(&mut buffer, 1);
    assert!(buffer.is_empty());
}

#[test]
fn packed_pixels_make_the_round_trip() {
    for depth in [1u8, 2, 4] {
        let per_byte = 8 / depth as usize;
        let limit = 1usize << depth;
        for width in 0..70usize {
            let pixels: Vec<u8> = (0..width).map(|p| ((p * 11 + width) % limit) as u8).collect();
            let lane = pack(&pixels, depth);
            let row = unpacked(&lane, depth, width);
            assert_eq!(row, pixels);
            assert!(row.iter().all(|&v| (v as usize) < limit));
            assert_eq!(pack(&row, depth), lane);
        }
        // Every byte, as a lane of full bytes.
        let lane: Vec<u8> = (0..=255).collect();
        let row = unpacked(&lane, depth, 256 * per_byte);
        assert!(row.iter().all(|&v| (v as usize) < limit));
        assert_eq!(pack(&row, depth), lane);
    }
}

#[test]
fn trailing_palette_with_nothing_before_it() {
    assert_eq!(palette_behind(0, usize::MAX), Ok((256, table())));
}

#[test]
fn trailing_palette_behind_one_byte() {
    assert_eq!(palette_behind(1, usize::MAX), Ok((256, table())));
}

#[test]
fn trailing_palette_behind_megabytes() {
    assert_eq!(palette_behind(3_000_001, usize::MAX), Ok((256, table())));
    assert_eq!(palette_behind(2_500_000, 4096), Ok((256, table())));
}

#[test]
fn trailing_palette_behind_any_number_of_bytes() {
    for preceding in 0..1600 {
        assert_eq!(palette_behind(preceding, usize::MAX), Ok((256, table())));
    }
}

#[test]
fn trailing_palette_from_a_stream_in_pieces() {
    for limit in [1usize, 2, 3, 100, 384, 385, 768, 769, 770, 1000] {
        for preceding in [0usize, 1, 5, 383, 384, 385, 767, 768, 769, 770, 1538, 5000] {
            assert_eq!(palette_behind(preceding, limit), Ok((256, table())));
        }
    }
}

#[test]
fn trailing_palette_without_marker() {
    let mut file = vec![0u8; 10];
    file.push(0x0B);
    file.extend(table());
    let mut out = vec![0x33u8; 768];
    assert_eq!(read_trailing_palette(ByteStream::new(file), &mut out), Err(Error::InvalidData));
    assert_eq!(out, vec![0x33u8; 768]);
}

#[test]
fn trailing_palette_in_a_short_stream() {
    // 768 bytes: a table without its marker.
    let mut out = vec![0x33u8; 768];
    assert_eq!(
        read_trailing_palette(ByteStream::new(vec![0x0C; 768]), &mut out),
        Err(Error::InvalidData)
    );
    assert_eq!(out, vec![0x33u8; 768]);
    assert_eq!(
        read_trailing_palette(ByteStream::new(Vec::new()), &mut out),
        Err(Error::InvalidData)
    );
    assert_eq!(
        read_trailing_palette(ByteStream::new(vec![0x0C]), &mut out),
        Err(Error::InvalidData)
    );
    assert_eq!(out, vec![0x33u8; 768]);
}

#[test]
fn trailing_palette_leaves_the_rest_of_the_buffer() {
    let mut file = vec![0x0C];
    file.extend(table());
    let mut out = vec![0x33u8; 771];
    assert_eq!(read_trailing_palette(ByteStream::new(file), &mut out), Ok(256));
    assert_eq!(&out[..768], &table()[..]);
    assert_eq!(&out[768..], &[0x33, 0x33, 0x33]);
}

#[test]
fn trailing_palette_is_the_last_marker_that_counts() {
    // A marker 769 bytes before the end, whatever the table holds.
    let mut file = vec![0x0C; 900];
    file.extend(vec![0x0Cu8; 769]);
    let mut out = vec![0u8; 768];
    assert_eq!(read_trailing_palette(ByteStream::new(file), &mut out), Ok(256));
    assert_eq!(out, vec![0x0Cu8; 768]);
}

#[test]
fn embedded_palette_is_copied_color_by_color() {
    let h = Header::parse(&sample_header()).unwrap();
    let mut out = vec![0xEEu8; 9];
    copy_embedded_palette(&h, 2, &mut out);
    assert_eq!(out, vec![1, 4, 7, 10, 13, 16, 0xEE, 0xEE, 0xEE]);
    copy_embedded_palette(&h, 0, &mut out);
    assert_eq!(out, vec![1, 4, 7, 10, 13, 16, 0xEE, 0xEE, 0xEE]);
    let mut all = vec![0u8; 48];
    copy_embedded_palette(&h, 16, &mut all);
    assert_eq!(all, (0..48).map(|i| (3 * i + 1) as u8).collect::<Vec<u8>>());
}
