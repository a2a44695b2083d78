use termviewer::bit_reader::BitReader;
use termviewer::bmp::{BMP, BMPHeader};
use termviewer::drawer::average;
use termviewer::huffman::HuffmanTable;
use termviewer::mcu::{MCU, MCUComponent};
use termviewer::quantization_table::QuantizationTable;
use termviewer::segment::SegmentType;
use termviewer::zigzag_map;

#[test]
fn zigzag_round_trip() {
    // De-zig-zag round trip: serialising and de-serialising a position
    // is the identity, in both directions.
    let zigzag = zigzag_map();
    let mut inverse = [usize::MAX; 64];
    for k in 0..64 {
        inverse[zigzag[k]] = k;
    }
    for k in 0..64 {
        assert_eq!(zigzag[inverse[k]], k);
        assert_eq!(inverse[zigzag[k]], k);
    }
}

#[test]
fn dqt_fills_natural_positions() {
    // A DQT payload of 64 ones, read in zig-zag order, fills the table
    // with 64 ones at natural positions.
    let mut reader = BitReader::new(vec![1u8; 64]);
    let mut table = QuantizationTable::new();
    let len = table.from_binary(&mut reader, 0, 0).expect("read");
    assert_eq!(len, 64);
    for k in 0..64 {
        assert_eq!(table.table(k), 1);
    }
}

#[test]
fn dqt_dezigzags_the_wire_order() {
    // The k-th wire entry lands at the k-th zig-zag position.
    let mut payload = Vec::new();
    for k in 0..64u8 {
        payload.push(k);
    }
    let mut reader = BitReader::new(payload);
    let mut table = QuantizationTable::new();
    table.from_binary(&mut reader, 2, 0).expect("read");
    let zigzag = zigzag_map();
    for k in 0..64 {
        assert_eq!(table.table(zigzag[k]), k as u16);
    }
    assert_eq!(table.table_id, 2);
}

#[test]
fn dht_single_symbol_table() {
    // Counts [0, 1, 0, ...] and symbol 0x05: a one-entry table whose
    // only code has value zero and maps to 5.
    let mut payload = vec![0u8; 16];
    payload[1] = 1;
    payload.push(0x05);
    let mut reader = BitReader::new(payload);
    let mut table = HuffmanTable::new();
    let len = table.from_binary(&mut reader, 0, false).expect("read");
    assert_eq!(len, 18);
    assert_eq!(table.offsets(0), 0);
    assert_eq!(table.offsets(1), 0);
    assert_eq!(table.offsets(2), 1);
    assert_eq!(table.offsets(16), 1);
    assert_eq!(table.symbols(0), 0x05);
    table.generate_codes();
    assert_eq!(table.codes(0), 0);
}

#[test]
fn canonical_codes_increase_and_shift() {
    // Two codes of length one and one of length two: 0, 1, then the
    // incremented counter shifted left: 100.
    let mut payload = vec![0u8; 16];
    payload[0] = 2;
    payload[1] = 1;
    payload.extend_from_slice(&[0x00, 0x01, 0x02]);
    let mut reader = BitReader::new(payload);
    let mut table = HuffmanTable::new();
    table.from_binary(&mut reader, 0, true).expect("read");
    table.generate_codes();
    assert_eq!(table.codes(0), 0b0);
    assert_eq!(table.codes(1), 0b1);
    assert_eq!(table.codes(2), 0b100);
    assert!(table.codes(0) < table.codes(1));
}

#[test]
fn impulse_coefficient_gives_constant_block() {
    // The impulse [1, 0, ..., 0] transforms into the DC basis: a
    // constant block.
    let mut block = [0i32; 64];
    block[0] = 1;
    let mut c = MCUComponent(block);
    c.inverse_dct();
    let first = c.0[0];
    for k in 0..64 {
        assert_eq!(c.0[k], first);
    }
    assert_eq!(first, 0);
}

#[test]
fn scaled_impulse_gives_constant_eighth() {
    // A DC coefficient of 80 yields the constant 80 / 8 = 10.
    let mut block = [0i32; 64];
    block[0] = 80;
    let mut c = MCUComponent(block);
    c.inverse_dct();
    for k in 0..64 {
        assert_eq!(c.0[k], 10);
    }
}

#[test]
fn dequantize_multiplies_pointwise() {
    let mut c = MCUComponent([3i32; 64]);
    let mut table = QuantizationTable::new();
    let mut reader = BitReader::new(vec![5u8; 64]);
    table.from_binary(&mut reader, 0, 0).expect("read");
    c.dequantize(&table);
    for k in 0..64 {
        assert_eq!(c.0[k], 15);
    }
}

#[test]
fn marker_classification() {
    assert_eq!(SegmentType::from_marker(0xFFD8), Some(SegmentType::SOI));
    assert_eq!(SegmentType::from_marker(0xFFC0), Some(SegmentType::SOF0));
    assert_eq!(SegmentType::from_marker(0xFFC4), Some(SegmentType::DHT));
    assert_eq!(SegmentType::from_marker(0xFFDB), Some(SegmentType::DQT));
    assert_eq!(SegmentType::from_marker(0xFFDA), Some(SegmentType::SOS));
    assert_eq!(SegmentType::from_marker(0xFFD0), Some(SegmentType::RSTN));
    assert_eq!(SegmentType::from_marker(0xFFD7), Some(SegmentType::RSTN));
    assert_eq!(SegmentType::from_marker(0xFFE3), Some(SegmentType::APPN));
    assert_eq!(SegmentType::from_marker(0xFFFE), Some(SegmentType::COM));
    assert_eq!(SegmentType::from_marker(0xFF02), None);
}

#[test]
fn word_reads_are_big_endian() {
    let mut reader = BitReader::new(vec![0x12, 0x34, 0x56, 0x78, 0x9A, 0xBC]);
    assert_eq!(reader.read_word().expect("word"), 0x1234);
    assert_eq!(reader.read_double().expect("double"), 0x56789ABC);
}

#[test]
fn align_discards_partial_byte() {
    let mut reader = BitReader::new(vec![0b1010_0000, 0b0100_0000]);
    assert_eq!(reader.read_bit().expect("bit"), 1);
    reader.align();
    assert_eq!(reader.read_bit().expect("bit"), 0);
    assert_eq!(reader.read_bit().expect("bit"), 1);
}

fn uniform_bmp_raster(r: i32, g: i32, b: i32) -> BMP {
    let header = BMPHeader {
        bmp_size: 26 + 8 * 8 * 3,
        header_size: 12,
        height: 8,
        width: 8,
        components_number: 1,
        starting_offset: 0x1A,
        bits_per_pixel: 24,
    };
    let mcu = MCU {
        components: [
            MCUComponent([r; 64]),
            MCUComponent([g; 64]),
            MCUComponent([b; 64]),
        ],
    };
    BMP::new(header, vec![mcu])
}

#[test]
fn bmp_bytes_layout() {
    // An 8x8 raster: 26 header bytes, rows bottom to top, each pixel
    // B, G, R, and no padding for a width divisible by four.
    let bmp = uniform_bmp_raster(10, 20, 30);
    let bytes = bmp.to_bytes();
    assert_eq!(bytes.len(), 26 + 8 * 8 * 3);
    assert_eq!(&bytes[0..2], &[0x42, 0x4D]);
    assert_eq!(bytes[2] as usize, 26 + 8 * 8 * 3);
    assert_eq!(bytes[10], 0x1A);
    assert_eq!(bytes[14], 12);
    assert_eq!(bytes[24], 24);
    assert_eq!(&bytes[26..29], &[30, 20, 10]);
    assert_eq!(&bytes[26 + 63 * 3..26 + 64 * 3], &[30, 20, 10]);
}

#[test]
fn bmp_round_trip() {
    // Serialising a raster and parsing it back yields the same pixels.
    let bmp = uniform_bmp_raster(10, 20, 30);
    let bytes = bmp.to_bytes();
    let parsed = BMP::from_bytes(bytes).expect("parse");
    assert_eq!(parsed.header.width, 8);
    assert_eq!(parsed.header.height, 8);
    assert_eq!(parsed.mcus.len(), 1);
    for k in 0..64 {
        assert_eq!(parsed.mcus[0].components[0].0[k], 10);
        assert_eq!(parsed.mcus[0].components[1].0[k], 20);
        assert_eq!(parsed.mcus[0].components[2].0[k], 30);
    }
}

#[test]
fn bmp_rejects_wrong_magic() {
    let bmp = uniform_bmp_raster(1, 2, 3);
    let mut bytes = bmp.to_bytes();
    bytes[0] = 0x41;
    assert_eq!(
        BMP::from_bytes(bytes).unwrap_err(),
        termviewer::DecodeError::BadMagic
    );
}

#[test]
fn bmp_rejects_size_mismatch() {
    let bmp = uniform_bmp_raster(1, 2, 3);
    let mut bytes = bmp.to_bytes();
    bytes.push(0);
    bytes[2] = bytes[2].wrapping_add(1);
    assert_eq!(
        BMP::from_bytes(bytes).unwrap_err(),
        termviewer::DecodeError::MalformedSegment
    );
}

#[test]
fn average_of_uniform_window_is_the_colour() {
    let bmp = uniform_bmp_raster(40, 50, 60);
    let (r, g, b) = average(&bmp.mcus, 1, 8, 8, 0, 0, 4);
    assert_eq!((r, g, b), (40, 50, 60));
}

#[test]
fn average_window_clamps_at_the_border() {
    let bmp = uniform_bmp_raster(9, 9, 9);
    let (r, g, b) = average(&bmp.mcus, 1, 8, 8, 6, 6, 100);
    assert_eq!((r, g, b), (9, 9, 9));
}
