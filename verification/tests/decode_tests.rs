use termviewer::bit_reader::BitReader;
use termviewer::jpeg::JPEG;
use termviewer::bmp::{BMP, BMPHeader};
use termviewer::mcu::{MCU, MCUComponent};
use termviewer::DecodeError;

/// A DQT segment declaring table 0 with 8-bit entries.
fn dqt_segment(entries: &[u8; 64]) -> Vec<u8> {
    let mut v = vec![0xFF, 0xDB, 0x00, 0x43, 0x00];
    v.extend_from_slice(entries);
    v
}

/// A DHT segment declaring one table: `class` is 0 for DC, 1 for AC.
fn dht_segment(class: u8, counts: &[u8; 16], symbols: &[u8]) -> Vec<u8> {
    let length = 2 + 1 + 16 + symbols.len();
    let mut v = vec![0xFF, 0xC4, (length >> 8) as u8, (length & 0xFF) as u8, class << 4];
    v.extend_from_slice(counts);
    v.extend_from_slice(symbols);
    v
}

/// A SOF0 segment for an 8-bit frame.
fn sof0_segment(width: u16, height: u16, ncomp: u8) -> Vec<u8> {
    let length = 2 + 1 + 2 + 2 + 1 + 3 * ncomp as usize;
    let mut v = vec![
        0xFF,
        0xC0,
        (length >> 8) as u8,
        (length & 0xFF) as u8,
        8,
        (height >> 8) as u8,
        (height & 0xFF) as u8,
        (width >> 8) as u8,
        (width & 0xFF) as u8,
        ncomp,
    ];
    for id in 1..=ncomp {
        v.extend_from_slice(&[id, 0x11, 0x00]);
    }
    v
}

/// A SOS segment naming every component with DC and AC table 0.
fn sos_segment(ncomp: u8) -> Vec<u8> {
    let length = 2 + 1 + 2 * ncomp as usize + 3;
    let mut v = vec![0xFF, 0xDA, (length >> 8) as u8, (length & 0xFF) as u8, ncomp];
    for id in 1..=ncomp {
        v.extend_from_slice(&[id, 0x00]);
    }
    v.extend_from_slice(&[0x00, 0x3F, 0x00]);
    v
}

/// One code of length one, mapping to `symbol`.
fn single_code_table(class: u8, symbol: u8) -> Vec<u8> {
    let mut counts = [0u8; 16];
    counts[0] = 1;
    dht_segment(class, &counts, &[symbol])
}

/// A grey-scale JPEG whose only block decodes to all-zero coefficients.
fn tiny_grey_jpeg(width: u16, height: u16, extra_segments: &[u8], entropy: &[u8]) -> Vec<u8> {
    let mut v = vec![0xFF, 0xD8];
    v.extend_from_slice(&dqt_segment(&[1u8; 64]));
    v.extend_from_slice(&single_code_table(0, 0x00));
    v.extend_from_slice(&single_code_table(1, 0x00));
    v.extend_from_slice(extra_segments);
    v.extend_from_slice(&sof0_segment(width, height, 1));
    v.extend_from_slice(&sos_segment(1));
    v.extend_from_slice(entropy);
    v
}

#[test]
fn grey_pixel_from_zero_dc() {
    // A 1x1 single-component image whose quantised DC is zero: the
    // spatial sample is zero, and the level shift alone sets the pixel.
    let data = tiny_grey_jpeg(1, 1, &[], &[0x00]);
    let jpeg = JPEG::from_bytes(data).expect("decode");
    assert_eq!(jpeg.header.width, 1);
    assert_eq!(jpeg.header.height, 1);
    assert_eq!(jpeg.mcus.len(), 1);
    assert_eq!(jpeg.mcus[0].components[0].0[0], 128);
    assert_eq!(jpeg.mcus[0].components[1].0[0], 128);
    assert_eq!(jpeg.mcus[0].components[2].0[0], 128);
}

#[test]
fn three_component_block_is_mid_grey() {
    // An 8x8 three-component image whose bit stream is one DC
    // category-0 symbol and an immediate end-of-block per component:
    // a solid block of (128, 128, 128).
    let mut v = vec![0xFF, 0xD8];
    v.extend_from_slice(&dqt_segment(&[1u8; 64]));
    v.extend_from_slice(&single_code_table(0, 0x00));
    v.extend_from_slice(&single_code_table(1, 0x00));
    v.extend_from_slice(&sof0_segment(8, 8, 3));
    v.extend_from_slice(&sos_segment(3));
    v.push(0x00);
    let jpeg = JPEG::from_bytes(v).expect("decode");
    assert_eq!(jpeg.mcus.len(), 1);
    for j in 0..3 {
        for k in 0..64 {
            assert_eq!(jpeg.mcus[0].components[j].0[k], 128);
        }
    }
}

#[test]
fn restart_markers_do_not_change_the_raster() {
    // Three MCUs of width with restart_interval = 2 and an FFD0 marker
    // after the second MCU decode to the same raster as the same
    // payload without the marker and without a restart interval.
    let dri = [0xFF, 0xDD, 0x00, 0x04, 0x00, 0x02];
    let with_restart = tiny_grey_jpeg(24, 8, &dri, &[0x00, 0xFF, 0xD0, 0x00]);
    let without_restart = tiny_grey_jpeg(24, 8, &[], &[0x00]);
    let a = JPEG::from_bytes(with_restart).expect("decode with restarts");
    let b = JPEG::from_bytes(without_restart).expect("decode without restarts");
    assert_eq!(a.header.restart_interval, 2);
    assert_eq!(b.header.restart_interval, 0);
    assert_eq!(a.mcus.len(), 3);
    assert_eq!(b.mcus.len(), 3);
    for i in 0..3 {
        for j in 0..3 {
            for k in 0..64 {
                assert_eq!(a.mcus[i].components[j].0[k], b.mcus[i].components[j].0[k]);
            }
        }
    }
}

#[test]
fn stuffed_byte_reads_as_literal_ff() {
    // 0xFF 0x00 in the entropy stream feeds the bit decoder the
    // literal byte 0xFF, not a marker.
    let mut reader = BitReader::new(vec![0xFF, 0x00]);
    let bits = reader.read_bits(8).expect("bits");
    assert_eq!(bits, 0xFF);
}

#[test]
fn restart_marker_is_skipped_by_the_bit_reader() {
    let mut reader = BitReader::new(vec![0xFF, 0xD3, 0xA5]);
    let bits = reader.read_bits(8).expect("bits");
    assert_eq!(bits, 0xA5);
}

#[test]
fn stray_marker_in_entropy_stream_fails() {
    let mut reader = BitReader::new(vec![0xFF, 0xC0]);
    assert_eq!(reader.read_bits(1), Err(DecodeError::StrayMarker));
}

#[test]
fn missing_soi_is_bad_magic() {
    let data = vec![0x12, 0x34, 0x56, 0x78];
    assert_eq!(JPEG::from_bytes(data).unwrap_err(), DecodeError::BadMagic);
}

#[test]
fn unknown_marker_is_rejected() {
    let data = vec![0xFF, 0xD8, 0xFF, 0x02];
    assert_eq!(JPEG::from_bytes(data).unwrap_err(), DecodeError::UnknownMarker);
}

#[test]
fn arithmetic_coding_is_unsupported() {
    let data = vec![0xFF, 0xD8, 0xFF, 0xCC];
    assert_eq!(JPEG::from_bytes(data).unwrap_err(), DecodeError::UnsupportedFeature);
}

#[test]
fn truncated_stream_is_io() {
    let data = vec![0xFF, 0xD8, 0xFF, 0xDB, 0x00, 0x43, 0x00, 0x01];
    assert_eq!(JPEG::from_bytes(data).unwrap_err(), DecodeError::Io);
}

#[test]
fn bad_quantization_table_id_is_malformed() {
    // A DQT whose packed byte names table 5.
    let mut v = vec![0xFF, 0xD8, 0xFF, 0xDB, 0x00, 0x43, 0x05];
    v.extend_from_slice(&[1u8; 64]);
    assert_eq!(JPEG::from_bytes(v).unwrap_err(), DecodeError::MalformedSegment);
}

#[test]
fn segment_length_mismatch_is_malformed() {
    // A DQT whose declared length falls one byte short of its table.
    let mut v = vec![0xFF, 0xD8, 0xFF, 0xDB, 0x00, 0x42, 0x00];
    v.extend_from_slice(&[1u8; 64]);
    assert_eq!(JPEG::from_bytes(v).unwrap_err(), DecodeError::MalformedSegment);
}

#[test]
fn progressive_spectral_selection_is_unsupported() {
    // A SOS whose spectral selection fields are not 0, 63, 0.
    let mut v = vec![0xFF, 0xD8];
    v.extend_from_slice(&dqt_segment(&[1u8; 64]));
    v.extend_from_slice(&single_code_table(0, 0x00));
    v.extend_from_slice(&single_code_table(1, 0x00));
    v.extend_from_slice(&sof0_segment(1, 1, 1));
    v.extend_from_slice(&[0xFF, 0xDA, 0x00, 0x08, 0x01, 0x01, 0x00, 0x01, 0x3F, 0x00]);
    assert_eq!(JPEG::from_bytes(v).unwrap_err(), DecodeError::UnsupportedFeature);
}

#[test]
fn sampling_factors_other_than_one_are_unsupported() {
    let mut v = vec![0xFF, 0xD8];
    v.extend_from_slice(&dqt_segment(&[1u8; 64]));
    v.extend_from_slice(&[
        0xFF, 0xC0, 0x00, 0x0B, 8, 0x00, 0x01, 0x00, 0x01, 1, 1, 0x22, 0x00,
    ]);
    assert_eq!(JPEG::from_bytes(v).unwrap_err(), DecodeError::UnsupportedFeature);
}

#[test]
fn huffman_miss_fails_the_decode() {
    // The DC table's only code is 0 of length 1; a stream of one bits
    // never matches within sixteen bits.
    let data = tiny_grey_jpeg(1, 1, &[], &[0xFF, 0x00, 0xFF, 0x00, 0xFF, 0x00]);
    assert_eq!(JPEG::from_bytes(data).unwrap_err(), DecodeError::HuffmanMiss);
}

#[test]
fn embedded_soi_is_unsupported() {
    let data = vec![0xFF, 0xD8, 0xFF, 0xD8];
    assert_eq!(JPEG::from_bytes(data).unwrap_err(), DecodeError::UnsupportedFeature);
}

#[test]
fn eoi_before_scan_is_rejected() {
    let data = vec![0xFF, 0xD8, 0xFF, 0xD9];
    assert_eq!(JPEG::from_bytes(data).unwrap_err(), DecodeError::MalformedSegment);
}

#[test]
fn quantisation_scales_the_dc_coefficient() {
    // One DC category-2 value of 3 against a quantiser of 8: the
    // dequantised DC is 24, the spatial block is a constant 3, and the
    // pixel becomes 3 + 128 = 131.
    let mut counts = [0u8; 16];
    counts[1] = 2;
    let dc_table = dht_segment(0, &counts, &[0x00, 0x02]);
    let mut v = vec![0xFF, 0xD8];
    v.extend_from_slice(&dqt_segment(&[8u8; 64]));
    v.extend_from_slice(&dc_table);
    v.extend_from_slice(&single_code_table(1, 0x00));
    v.extend_from_slice(&sof0_segment(1, 1, 1));
    v.extend_from_slice(&sos_segment(1));
    // DC: code 01 (category 2), bits 11 (value 3); AC: EOB is code 0.
    // Bit stream: 01 11 0 -> 0111 0000.
    v.push(0x70);
    let jpeg = JPEG::from_bytes(v).expect("decode");
    assert_eq!(jpeg.mcus[0].components[0].0[0], 131);
}

#[test]
fn colour_conversion_clamps_to_byte_range() {
    let mut m = MCU {
        components: [
            MCUComponent([1000i32; 64]),
            MCUComponent([-2000i32; 64]),
            MCUComponent([1500i32; 64]),
        ],
    };
    m.ycbcr_to_rgb();
    for j in 0..3 {
        for k in 0..64 {
            let v = m.components[j].0[k];
            assert!(0 <= v && v <= 255);
        }
    }
}

#[test]
fn colour_conversion_rounds_the_fixed_point_products() {
    let mut m = MCU {
        components: [
            MCUComponent([0i32; 64]),
            MCUComponent([10i32; 64]),
            MCUComponent([10i32; 64]),
        ],
    };
    m.ycbcr_to_rgb();
    // R = round(1.402 * 10) + 128 = 14 + 128; G = round(-3.44 - 7.14)
    // + 128 = -11 + 128; B = round(17.72) + 128 = 18 + 128.
    assert_eq!(m.components[0].0[0], 142);
    assert_eq!(m.components[1].0[0], 117);
    assert_eq!(m.components[2].0[0], 146);
}

#[test]
fn ac_run_past_the_block_end_overflows() {
    // The AC table's only symbol is 0xF1: run 15, size 1.  The fourth
    // such symbol pushes the zig-zag index past 63.
    let mut v = vec![0xFF, 0xD8];
    v.extend_from_slice(&dqt_segment(&[1u8; 64]));
    v.extend_from_slice(&single_code_table(0, 0x00));
    v.extend_from_slice(&single_code_table(1, 0xF1));
    v.extend_from_slice(&sof0_segment(1, 1, 1));
    v.extend_from_slice(&sos_segment(1));
    v.extend_from_slice(&[0x2A, 0x80]);
    assert_eq!(JPEG::from_bytes(v).unwrap_err(), DecodeError::AcOverflow);
}

#[test]
fn dc_category_above_eleven_is_malformed() {
    let data = tiny_grey_jpeg_with_dc_symbol(0x0C);
    assert_eq!(JPEG::from_bytes(data).unwrap_err(), DecodeError::MalformedSegment);
}

fn tiny_grey_jpeg_with_dc_symbol(symbol: u8) -> Vec<u8> {
    let mut v = vec![0xFF, 0xD8];
    v.extend_from_slice(&dqt_segment(&[1u8; 64]));
    v.extend_from_slice(&single_code_table(0, symbol));
    v.extend_from_slice(&single_code_table(1, 0x00));
    v.extend_from_slice(&sof0_segment(1, 1, 1));
    v.extend_from_slice(&sos_segment(1));
    v.push(0x00);
    v
}

#[test]
fn ac_coefficient_lands_at_its_zigzag_position() {
    // The AC table's only symbol is 0x01: run 0, size 1.  One set bit
    // decodes the coefficient +1 at zig-zag index 1, raster position 1,
    // and a following end-of-block needs a second table entry; instead
    // let the remaining positions fill with further +1 runs until the
    // block ends.
    let mut v = vec![0xFF, 0xD8];
    v.extend_from_slice(&dqt_segment(&[0u8; 64]));
    v.extend_from_slice(&single_code_table(0, 0x00));
    v.extend_from_slice(&single_code_table(1, 0x01));
    v.extend_from_slice(&sof0_segment(1, 1, 1));
    v.extend_from_slice(&sos_segment(1));
    // DC category 0, then 63 AC symbols: each is code 0 plus one
    // magnitude bit 1, so the stream after the DC bit is 01 repeated.
    let mut bits: Vec<bool> = vec![false];
    for _ in 0..63 {
        bits.push(false);
        bits.push(true);
    }
    let mut bytes = Vec::new();
    let mut acc: u8 = 0;
    let mut n = 0;
    for b in bits {
        acc = (acc << 1) | (b as u8);
        n += 1;
        if n == 8 {
            bytes.push(acc);
            acc = 0;
            n = 0;
        }
    }
    if n > 0 {
        bytes.push(acc << (8 - n));
    }
    v.extend_from_slice(&bytes);
    // The quantiser is all zeroes, so every coefficient dequantises to
    // zero and the raster is the level-shifted mid grey.
    let jpeg = JPEG::from_bytes(v).expect("decode");
    assert_eq!(jpeg.mcus[0].components[0].0[0], 128);
}

#[test]
fn padded_bmp_round_trip_keeps_pixels_and_zeroes_the_rest() {
    // A 10 by 3 raster: rows padded by two bytes, two blocks across,
    // pixels beyond the image stay zero after a round trip.
    let width: u16 = 10;
    let height: u16 = 3;
    let row_len = 3 * width as u32 + (width % 4) as u32;
    let header = BMPHeader {
        bmp_size: 26 + row_len * height as u32,
        header_size: 12,
        height,
        width,
        components_number: 1,
        starting_offset: 0x1A,
        bits_per_pixel: 24,
    };
    let mut mcus = vec![
        MCU {
            components: [
                MCUComponent([0i32; 64]),
                MCUComponent([0i32; 64]),
                MCUComponent([0i32; 64]),
            ],
        };
        2
    ];
    for y in 0..height as usize {
        for x in 0..width as usize {
            let block = x / 8;
            let pix = (y % 8) * 8 + x % 8;
            mcus[block].components[0].0[pix] = (10 * x + y) as i32;
            mcus[block].components[1].0[pix] = (x + y) as i32;
            mcus[block].components[2].0[pix] = (x * y) as i32;
        }
    }
    let bmp = BMP::new(header, mcus);
    let bytes = bmp.to_bytes();
    assert_eq!(bytes.len() as u32, 26 + row_len * height as u32);
    let parsed = BMP::from_bytes(bytes).expect("parse");
    assert_eq!(parsed.mcus.len(), 2);
    for y in 0..height as usize {
        for x in 0..width as usize {
            let block = x / 8;
            let pix = (y % 8) * 8 + x % 8;
            assert_eq!(parsed.mcus[block].components[0].0[pix], (10 * x + y) as i32);
            assert_eq!(parsed.mcus[block].components[1].0[pix], (x + y) as i32);
            assert_eq!(parsed.mcus[block].components[2].0[pix], (x * y) as i32);
        }
    }
    // A pixel outside the 10-wide image but inside the second block.
    assert_eq!(parsed.mcus[1].components[0].0[7], 0);
    // A pixel below the 3-tall image.
    assert_eq!(parsed.mcus[0].components[0].0[4 * 8], 0);
}
