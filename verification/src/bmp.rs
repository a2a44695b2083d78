//! Uncompressed 24-bit BMP rasters: the 12-byte BITMAPCOREHEADER form,
//! rows bottom to top, each padded by `width mod 4` bytes, samples in
//! B, G, R order.  Serialising and parsing work on byte vectors; the
//! caller moves them to and from disk.

use vstd::prelude::*;

use crate::bit_reader::{spec_read_byte, BitReader, ReaderState};
use crate::mcu::MCU;
use crate::DecodeError;

verus! {

/// The fields of a BMP file header.
#[derive(Clone, Copy, Debug)]
pub struct BMPHeader {
    pub bmp_size: u32,
    pub header_size: u32,
    pub height: u16,
    pub width: u16,
    pub components_number: u16,
    pub starting_offset: u32,
    pub bits_per_pixel: u16,
}

/// The number of 8-pixel block columns a raster of width `w` needs.
pub open spec fn spec_blocks_across(w: int) -> int {
    (w + 7) / 8
}

/// The low byte of a sample, as storing an `i32` sample in a byte
/// truncates it.
pub open spec fn spec_low_byte(v: i32) -> u8 {
    (v & 0xFF) as u8
}

/// The sample byte of channel `c` (0 blue, 1 green, 2 red) at pixel
/// `(x, y)` of a block raster `mcu_w` blocks wide.
pub open spec fn spec_bmp_sample(mcus: Seq<MCU>, mcu_w: int, x: int, y: int, c: int) -> u8 {
    spec_low_byte(mcus[(y / 8) * mcu_w + x / 8].components@[2 - c].0@[(y % 8) * 8 + (x % 8)])
}

/// The 26 header bytes of a 24-bit BITMAPCOREHEADER file of the given
/// pixel size: magic, file size, reserved zeroes, pixel offset 26,
/// header size 12, width, height, one plane, 24 bits per pixel, all
/// little-endian.
pub open spec fn spec_bmp_header_bytes(size: u32, width: u16, height: u16) -> Seq<u8> {
    seq![
        0x42u8,
        0x4Du8,
        (size & 0xFF) as u8,
        ((size >> 8u32) & 0xFF) as u8,
        ((size >> 16u32) & 0xFF) as u8,
        ((size >> 24u32) & 0xFF) as u8,
        0u8,
        0u8,
        0u8,
        0u8,
        0x1Au8,
        0u8,
        0u8,
        0u8,
        12u8,
        0u8,
        0u8,
        0u8,
        (width & 0xFF) as u8,
        ((width >> 8u16) & 0xFF) as u8,
        (height & 0xFF) as u8,
        ((height >> 8u16) & 0xFF) as u8,
        1u8,
        0u8,
        24u8,
        0u8,
    ]
}

/// A decoded raster ready to be written out as a BMP, or one read from
/// a BMP file.
#[derive(Clone, Debug)]
pub struct BMP {
    pub header: BMPHeader,
    pub mcus: Vec<MCU>,
}

impl BMP {
    pub fn new(header: BMPHeader, mcus: Vec<MCU>) -> (r: BMP)
        ensures
            r.header == header,
            r.mcus@ == mcus@,
    {
        BMP { header, mcus }
    }

    pub fn width(&self) -> (r: u16)
        ensures
            r == self.header.width,
    {
        self.header.width
    }

    pub fn height(&self) -> (r: u16)
        ensures
            r == self.header.height,
    {
        self.header.height
    }

    pub fn mcus(&self) -> (r: &Vec<MCU>)
        ensures
            r@ == self.mcus@,
    {
        &self.mcus
    }

    /// Serialises the raster: the 26 header bytes, then the rows from
    /// the bottom up, each pixel as B, G, R low bytes, each row padded
    /// with `width mod 4` zero bytes.
    pub fn to_bytes(&self) -> (r: Vec<u8>)
        requires
            self.mcus@.len() >= spec_blocks_across(self.header.width as int) * spec_blocks_across(
                self.header.height as int,
            ),
            26 + (3 * self.header.width + self.header.width % 4) * self.header.height
                <= u32::MAX,
        ensures
            ({
                let w = self.header.width as int;
                let h = self.header.height as int;
                let pad = w % 4;
                let row_len = 3 * w + pad;
                let mcu_w = spec_blocks_across(w);
                r@.len() == 26 + row_len * h && (forall|i: int|
                    0 <= i < 26 ==> r@[i] == spec_bmp_header_bytes(
                        (26 + row_len * h) as u32,
                        self.header.width,
                        self.header.height,
                    )[i]) && (forall|y: int, x: int, c: int|
                    0 <= y < h && 0 <= x < w && 0 <= c < 3 ==> #[trigger] r@[26 + (h - 1 - y)
                        * row_len + 3 * x + c] == spec_bmp_sample(self.mcus@, mcu_w, x, y, c)) && (
                forall|y: int, p: int|
                    0 <= y < h && 0 <= p < pad ==> #[trigger] r@[26 + (h - 1 - y) * row_len + 3 * w
                        + p] == 0u8)
            }),
    {
        let w: usize = self.header.width as usize;
        let h: usize = self.header.height as usize;
        let pad: usize = w % 4;
        let row_len: usize = 3 * w + pad;
        let mcu_w: usize = (w + 7) / 8;
        let total: usize = 26 + row_len * h;
        let size32: u32 = total as u32;
        let ghost header_bytes = spec_bmp_header_bytes(size32, self.header.width, self.header.height);
        let mut buffer: Vec<u8> = Vec::new();
        proof {
            assert(size32 & 0xFF < 256) by (bit_vector);
            assert((size32 >> 8u32) & 0xFF < 256) by (bit_vector);
            assert((size32 >> 16u32) & 0xFF < 256) by (bit_vector);
            assert((size32 >> 24u32) & 0xFF < 256) by (bit_vector);
        }
        buffer.push(0x42);
        buffer.push(0x4D);
        buffer.push((size32 & 0xFF) as u8);
        buffer.push(((size32 >> 8u32) & 0xFF) as u8);
        buffer.push(((size32 >> 16u32) & 0xFF) as u8);
        buffer.push(((size32 >> 24u32) & 0xFF) as u8);
        buffer.push(0);
        buffer.push(0);
        buffer.push(0);
        buffer.push(0);
        buffer.push(0x1A);
        buffer.push(0);
        buffer.push(0);
        buffer.push(0);
        buffer.push(12);
        buffer.push(0);
        buffer.push(0);
        buffer.push(0);
        let wv: u16 = self.header.width;
        let hv: u16 = self.header.height;
        proof {
            assert(wv & 0xFF < 256 && (wv >> 8u16) & 0xFF < 256) by (bit_vector);
            assert(hv & 0xFF < 256 && (hv >> 8u16) & 0xFF < 256) by (bit_vector);
        }
        buffer.push((wv & 0xFF) as u8);
        buffer.push(((wv >> 8u16) & 0xFF) as u8);
        buffer.push((hv & 0xFF) as u8);
        buffer.push(((hv >> 8u16) & 0xFF) as u8);
        buffer.push(1);
        buffer.push(0);
        buffer.push(24);
        buffer.push(0);
        assert(forall|i: int| 0 <= i < 26 ==> buffer@[i] == header_bytes[i]);
        let n_mcus: usize = self.mcus.len();
        let mut rows_done: usize = 0;
        while rows_done < h
            invariant
                rows_done <= h,
                w == self.header.width,
                h == self.header.height,
                pad == w % 4,
                row_len == 3 * w + pad,
                mcu_w == spec_blocks_across(w as int),
                self.mcus@.len() >= mcu_w * spec_blocks_across(h as int),
                n_mcus == self.mcus@.len(),
                total == 26 + row_len * h,
                row_len * h + 26 <= usize::MAX,
                buffer@.len() == 26 + row_len * rows_done,
                forall|i: int| 0 <= i < 26 ==> buffer@[i] == header_bytes[i],
                forall|d: int, x: int, c: int|
                    0 <= d < rows_done && 0 <= x < w && 0 <= c < 3 ==> #[trigger] buffer@[26 + d * row_len + 3
                        * x + c] == spec_bmp_sample(self.mcus@, mcu_w as int, x, h - 1 - d, c),
                forall|d: int, p: int|
                    0 <= d < rows_done && 0 <= p < pad ==> #[trigger] buffer@[26 + d * row_len + 3 * w + p]
                        == 0u8,
            decreases h - rows_done,
        {
            let y: usize = h - 1 - rows_done;
            let mcu_row: usize = y / 8;
            let pixel_row: usize = y % 8;
            let mut x: usize = 0;
            while x < w
                invariant
                    x <= w,
                    rows_done < h,
                    y == h - 1 - rows_done,
                    mcu_row == y / 8,
                    pixel_row == y % 8,
                    w == self.header.width,
                    h == self.header.height,
                    pad == w % 4,
                    row_len == 3 * w + pad,
                    mcu_w == spec_blocks_across(w as int),
                    self.mcus@.len() >= mcu_w * spec_blocks_across(h as int),
                    n_mcus == self.mcus@.len(),
                    total == 26 + row_len * h,
                    row_len * h + 26 <= usize::MAX,
                    buffer@.len() == 26 + row_len * rows_done + 3 * x,
                    forall|i: int| 0 <= i < 26 ==> buffer@[i] == header_bytes[i],
                    forall|d: int, x2: int, c: int|
                        0 <= d < rows_done && 0 <= x2 < w && 0 <= c < 3 ==> #[trigger] buffer@[26 + d
                            * row_len + 3 * x2 + c] == spec_bmp_sample(
                            self.mcus@,
                            mcu_w as int,
                            x2,
                            h - 1 - d,
                            c,
                        ),
                    forall|d: int, p: int|
                        0 <= d < rows_done && 0 <= p < pad ==> #[trigger] buffer@[26 + d * row_len + 3 * w + p]
                            == 0u8,
                    forall|x2: int, c: int|
                        0 <= x2 < x && 0 <= c < 3 ==> #[trigger] buffer@[26 + rows_done * row_len + 3 * x2 + c]
                            == spec_bmp_sample(self.mcus@, mcu_w as int, x2, y as int, c),
                decreases w - x,
            {
                let mcu_column: usize = x / 8;
                let pixel_column: usize = x % 8;
                proof {
                    lemma_mcu_index_in_range(
                        w as int,
                        h as int,
                        mcu_w as int,
                        self.mcus@.len() as int,
                        x as int,
                        y as int,
                    );
                }
                proof {
                    assert(mcu_row == y as int / 8);
                    assert(mcu_column == x as int / 8);
                    assert(mcu_row * mcu_w + mcu_column == (y as int / 8) * (mcu_w as int) + x as int
                        / 8);
                    assert(mcu_row * mcu_w + mcu_column < self.mcus@.len());
                    assert(mcu_row * mcu_w + mcu_column < n_mcus);
                }
                let mcu_index: usize = mcu_row * mcu_w + mcu_column;
                let pixel_index: usize = pixel_row * 8 + pixel_column;
                let m: &MCU = &self.mcus[mcu_index];
                buffer.push(low_byte(m.components[2].0[pixel_index]));
                buffer.push(low_byte(m.components[1].0[pixel_index]));
                buffer.push(low_byte(m.components[0].0[pixel_index]));
                x = x + 1;
                proof {
                    assert forall|d: int| 0 <= d < rows_done implies #[trigger] (d * row_len) + row_len
                        <= rows_done * row_len by {
                        lemma_row_step(d, rows_done as int, row_len as int);
                    }
                }
            }
            let mut p: usize = 0;
            while p < pad
                invariant
                    p <= pad,
                    rows_done < h,
                    y == h - 1 - rows_done,
                    w == self.header.width,
                    h == self.header.height,
                    pad == w % 4,
                    row_len == 3 * w + pad,
                    mcu_w == spec_blocks_across(w as int),
                    self.mcus@.len() >= mcu_w * spec_blocks_across(h as int),
                    total == 26 + row_len * h,
                    row_len * h + 26 <= usize::MAX,
                    buffer@.len() == 26 + row_len * rows_done + 3 * w + p,
                    forall|i: int| 0 <= i < 26 ==> buffer@[i] == header_bytes[i],
                    forall|d: int, x2: int, c: int|
                        0 <= d < rows_done && 0 <= x2 < w && 0 <= c < 3 ==> #[trigger] buffer@[26 + d
                            * row_len + 3 * x2 + c] == spec_bmp_sample(
                            self.mcus@,
                            mcu_w as int,
                            x2,
                            h - 1 - d,
                            c,
                        ),
                    forall|d: int, p2: int|
                        0 <= d < rows_done && 0 <= p2 < pad ==> #[trigger] buffer@[26 + d * row_len + 3 * w
                            + p2] == 0u8,
                    forall|x2: int, c: int|
                        0 <= x2 < w && 0 <= c < 3 ==> #[trigger] buffer@[26 + rows_done * row_len + 3 * x2 + c]
                            == spec_bmp_sample(self.mcus@, mcu_w as int, x2, y as int, c),
                    forall|p2: int|
                        0 <= p2 < p ==> #[trigger] buffer@[26 + rows_done * row_len + 3 * w + p2] == 0u8,
                decreases pad - p,
            {
                buffer.push(0);
                p = p + 1;
                proof {
                    assert forall|d: int| 0 <= d < rows_done implies #[trigger] (d * row_len) + row_len
                        <= rows_done * row_len by {
                        lemma_row_step(d, rows_done as int, row_len as int);
                    }
                }
            }
            rows_done = rows_done + 1;
            proof {
                assert forall|d: int| 0 <= d < rows_done implies #[trigger] (d * row_len) + row_len <= rows_done
                    * row_len by {
                    lemma_row_step(d, rows_done as int, row_len as int);
                }
                assert(rows_done * row_len == (rows_done - 1) * row_len + row_len) by {
                    vstd::arithmetic::mul::lemma_mul_is_distributive_sub_other_way(
                        row_len as int,
                        rows_done as int,
                        1,
                    );
                }
                assert(row_len * rows_done == rows_done * row_len) by {
                    vstd::arithmetic::mul::lemma_mul_is_commutative(row_len as int, rows_done as int);
                }
                assert(row_len * (rows_done - 1) == (rows_done - 1) * row_len) by {
                    vstd::arithmetic::mul::lemma_mul_is_commutative(
                        row_len as int,
                        rows_done as int - 1,
                    );
                }
                assert(buffer@.len() == 26 + row_len * rows_done);
            }
        }
        buffer
    }
}

/// The block holding pixel `(x, y)` lies inside the raster's block grid.
pub proof fn lemma_mcu_index_in_range(w: int, h: int, mcu_w: int, n: int, x: int, y: int)
    requires
        0 <= x < w,
        0 <= y < h,
        mcu_w == spec_blocks_across(w),
        n >= mcu_w * spec_blocks_across(h),
    ensures
        0 <= (y / 8) * mcu_w + x / 8 < n,
        0 <= (y % 8) * 8 + x % 8 < 64,
{
    let bx = x / 8;
    let by = y / 8;
    let bh = spec_blocks_across(h);
    vstd::arithmetic::div_mod::lemma_div_is_ordered(x, w - 1, 8);
    vstd::arithmetic::div_mod::lemma_hoist_over_denominator(w - 1, 1, 8nat);
    vstd::arithmetic::div_mod::lemma_div_pos_is_pos(x, 8);
    assert(0 <= bx < mcu_w);
    vstd::arithmetic::div_mod::lemma_div_is_ordered(y, h - 1, 8);
    vstd::arithmetic::div_mod::lemma_hoist_over_denominator(h - 1, 1, 8nat);
    vstd::arithmetic::div_mod::lemma_div_pos_is_pos(y, 8);
    assert(0 <= by < bh);
    assert(by * mcu_w + bx < bh * mcu_w) by (nonlinear_arith)
        requires
            0 <= bx < mcu_w,
            0 <= by < bh,
    ;
    vstd::arithmetic::mul::lemma_mul_is_commutative(bh, mcu_w);
    assert(bh * mcu_w <= n);
    assert(0 <= y % 8 < 8 && 0 <= x % 8 < 8);
    assert(0 <= (y % 8) * 8 + x % 8 < 64);
}

/// A full earlier row ends before the row being filled begins.
proof fn lemma_row_step(d: int, n: int, rl: int)
    requires
        0 <= d < n,
        rl >= 0,
    ensures
        d * rl + rl <= n * rl,
{
    vstd::arithmetic::mul::lemma_mul_inequality(d + 1, n, rl);
    vstd::arithmetic::mul::lemma_mul_is_distributive_add_other_way(rl, d, 1);
    vstd::arithmetic::mul::lemma_mul_is_commutative(d + 1, rl);
    vstd::arithmetic::mul::lemma_mul_is_commutative(d, rl);
    vstd::arithmetic::mul::lemma_mul_is_commutative(n, rl);
}

/// The low byte of a sample, as the file stores it.
fn low_byte(v: i32) -> (r: u8)
    ensures
        r == spec_low_byte(v),
{
    let masked: i32 = v & 0xFF;
    assert(0 <= v & 0xFF < 256) by (bit_vector);
    masked as u8
}


/// Two raw bytes as a little-endian word.
pub open spec fn spec_read_word_le(data: Seq<u8>, st: ReaderState) -> Result<
    (ReaderState, u16),
    crate::DecodeError,
> {
    match spec_read_byte(data, st) {
        Ok((st1, lo)) => match spec_read_byte(data, st1) {
            Ok((st2, hi)) => Ok((st2, (lo + 256 * hi) as u16)),
            Err(e) => Err(e),
        },
        Err(e) => Err(e),
    }
}

/// Four raw bytes as a little-endian double word.
pub open spec fn spec_read_double_le(data: Seq<u8>, st: ReaderState) -> Result<
    (ReaderState, u32),
    crate::DecodeError,
> {
    match spec_read_word_le(data, st) {
        Ok((st1, lo)) => match spec_read_word_le(data, st1) {
            Ok((st2, hi)) => Ok((st2, (lo + 0x10000 * hi) as u32)),
            Err(e) => Err(e),
        },
        Err(e) => Err(e),
    }
}

/// A BMP file header: the `BM` magic, the file and header sizes, the
/// raster's dimensions, one colour plane, and the pixel offset, which
/// must equal the twenty-six bytes read.
pub open spec fn spec_parse_bmp_header(data: Seq<u8>, st: ReaderState) -> Result<
    (BMPHeader, ReaderState),
    crate::DecodeError,
> {
    match crate::bit_reader::spec_read_word(data, st) {
        Err(e) => Err(e),
        Ok((st1, magic)) => if magic != 0x424D {
            Err(crate::DecodeError::BadMagic)
        } else {
            match spec_read_double_le(data, st1) {
                Err(e) => Err(e),
                Ok((st2, bmp_size)) => match spec_read_double_le(data, st2) {
                    Err(e) => Err(e),
                    Ok((st3, reserved)) => if reserved != 0 {
                        Err(crate::DecodeError::MalformedSegment)
                    } else {
                        match spec_read_double_le(data, st3) {
                            Err(e) => Err(e),
                            Ok((st4, starting_offset)) => match spec_read_double_le(data, st4) {
                                Err(e) => Err(e),
                                Ok((st5, header_size)) => match spec_read_word_le(data, st5) {
                                    Err(e) => Err(e),
                                    Ok((st6, width)) => match spec_read_word_le(data, st6) {
                                        Err(e) => Err(e),
                                        Ok((st7, height)) => match spec_read_word_le(data, st7) {
                                            Err(e) => Err(e),
                                            Ok((st8, components_number)) => if components_number
                                                != 1 {
                                                Err(crate::DecodeError::MalformedSegment)
                                            } else {
                                                match spec_read_word_le(data, st8) {
                                                    Err(e) => Err(e),
                                                    Ok((st9, bits_per_pixel)) => if starting_offset
                                                        != 26 {
                                                        Err(crate::DecodeError::MalformedSegment)
                                                    } else {
                                                        Ok(
                                                            (
                                                                BMPHeader {
                                                                    bmp_size,
                                                                    header_size,
                                                                    height,
                                                                    width,
                                                                    components_number,
                                                                    starting_offset,
                                                                    bits_per_pixel,
                                                                },
                                                                st9,
                                                            ),
                                                        )
                                                    },
                                                }
                                            },
                                        },
                                    },
                                },
                            },
                        }
                    },
                },
            }
        },
    }
}

impl BMPHeader {
    /// Parses the twenty-six header bytes of a BMP file.
    pub fn from_binary(reader: &mut BitReader) -> (r: Result<BMPHeader, crate::DecodeError>)
        requires
            old(reader).wf(),
        ensures
            final(reader).wf(),
            final(reader).bytes() == old(reader).bytes(),
            match spec_parse_bmp_header(old(reader).bytes(), old(reader).st()) {
                Ok((h, st2)) => r == Ok::<BMPHeader, crate::DecodeError>(h) && final(reader).st()
                    == st2,
                Err(e) => r == Err::<BMPHeader, crate::DecodeError>(e),
            },
    {
        let magic: u16 = match reader.read_word() {
            Ok(w) => w,
            Err(e) => {
                return Err(e);
            },
        };
        if magic != 0x424D {
            return Err(crate::DecodeError::BadMagic);
        }
        let bmp_size: u32 = match read_double_le(reader) {
            Ok(v) => v,
            Err(e) => {
                return Err(e);
            },
        };
        let reserved: u32 = match read_double_le(reader) {
            Ok(v) => v,
            Err(e) => {
                return Err(e);
            },
        };
        if reserved != 0 {
            return Err(crate::DecodeError::MalformedSegment);
        }
        let starting_offset: u32 = match read_double_le(reader) {
            Ok(v) => v,
            Err(e) => {
                return Err(e);
            },
        };
        let header_size: u32 = match read_double_le(reader) {
            Ok(v) => v,
            Err(e) => {
                return Err(e);
            },
        };
        let width: u16 = match read_word_le(reader) {
            Ok(v) => v,
            Err(e) => {
                return Err(e);
            },
        };
        let height: u16 = match read_word_le(reader) {
            Ok(v) => v,
            Err(e) => {
                return Err(e);
            },
        };
        let components_number: u16 = match read_word_le(reader) {
            Ok(v) => v,
            Err(e) => {
                return Err(e);
            },
        };
        if components_number != 1 {
            return Err(crate::DecodeError::MalformedSegment);
        }
        let bits_per_pixel: u16 = match read_word_le(reader) {
            Ok(v) => v,
            Err(e) => {
                return Err(e);
            },
        };
        if starting_offset != 26 {
            return Err(crate::DecodeError::MalformedSegment);
        }
        Ok(
            BMPHeader {
                bmp_size,
                header_size,
                height,
                width,
                components_number,
                starting_offset,
                bits_per_pixel,
            },
        )
    }
}

/// Two raw bytes as a little-endian word.
fn read_word_le(reader: &mut BitReader) -> (r: Result<u16, crate::DecodeError>)
    requires
        old(reader).wf(),
    ensures
        final(reader).wf(),
        final(reader).bytes() == old(reader).bytes(),
        match spec_read_word_le(old(reader).bytes(), old(reader).st()) {
            Ok((st2, w)) => r == Ok::<u16, crate::DecodeError>(w) && final(reader).st() == st2,
            Err(e) => r == Err::<u16, crate::DecodeError>(e),
        },
{
    let lo: u8 = match reader.read_byte() {
        Ok(b) => b,
        Err(e) => {
            return Err(e);
        },
    };
    let hi: u8 = match reader.read_byte() {
        Ok(b) => b,
        Err(e) => {
            return Err(e);
        },
    };
    Ok(lo as u16 + 256 * (hi as u16))
}

/// Four raw bytes as a little-endian double word.
fn read_double_le(reader: &mut BitReader) -> (r: Result<u32, crate::DecodeError>)
    requires
        old(reader).wf(),
    ensures
        final(reader).wf(),
        final(reader).bytes() == old(reader).bytes(),
        match spec_read_double_le(old(reader).bytes(), old(reader).st()) {
            Ok((st2, w)) => r == Ok::<u32, crate::DecodeError>(w) && final(reader).st() == st2,
            Err(e) => r == Err::<u32, crate::DecodeError>(e),
        },
{
    let lo: u16 = match read_word_le(reader) {
        Ok(b) => b,
        Err(e) => {
            return Err(e);
        },
    };
    let hi: u16 = match read_word_le(reader) {
        Ok(b) => b,
        Err(e) => {
            return Err(e);
        },
    };
    Ok(lo as u32 + 0x10000 * (hi as u32))
}


/// The byte of channel `c` (0 blue, 1 green, 2 red) of pixel `(x, y)`
/// in the pixel array of a bottom-up BMP whose rows span `row_len`
/// bytes from `base`.
pub open spec fn spec_bmp_pixel_byte(
    data: Seq<u8>,
    base: int,
    row_len: int,
    h: int,
    x: int,
    y: int,
    c: int,
) -> u8 {
    data[base + (h - 1 - y) * row_len + 3 * x + c]
}

/// A grid coordinate inside the padded block raster names a block and
/// a pixel inside it.
pub proof fn lemma_grid_index_in_range(mw: int, mh: int, n: int, x: int, y: int)
    requires
        0 <= x < 8 * mw,
        0 <= y < 8 * mh,
        n >= mw * mh,
    ensures
        0 <= (y / 8) * mw + x / 8 < n,
        0 <= (y % 8) * 8 + x % 8 < 64,
{
    vstd::arithmetic::div_mod::lemma_div_pos_is_pos(x, 8);
    vstd::arithmetic::div_mod::lemma_div_pos_is_pos(y, 8);
    assert(x / 8 < mw) by (nonlinear_arith)
        requires
            0 <= x < 8 * mw,
    ;
    assert(y / 8 < mh) by (nonlinear_arith)
        requires
            0 <= y < 8 * mh,
    ;
    assert((y / 8) * mw + x / 8 < mh * mw) by (nonlinear_arith)
        requires
            0 <= x / 8 < mw && 0 <= y / 8 < mh,
    ;
    vstd::arithmetic::mul::lemma_mul_is_commutative(mh, mw);
    assert(0 <= (y % 8) * 8 + x % 8 < 64) by (nonlinear_arith)
        requires
            x >= 0 && y >= 0,
    ;
}

/// A block-grid coordinate pair recovers itself from its block and
/// pixel indices.
pub proof fn lemma_grid_bijection(x: int, y: int, mw: int)
    requires
        0 <= x < 8 * mw,
        0 <= y,
    ensures
        ((y / 8) * mw + x / 8) % mw == x / 8,
        ((y / 8) * mw + x / 8) / mw == y / 8,
        ((y % 8) * 8 + x % 8) % 8 == x % 8,
        ((y % 8) * 8 + x % 8) / 8 == y % 8,
{
    vstd::arithmetic::div_mod::lemma_div_pos_is_pos(x, 8);
    vstd::arithmetic::div_mod::lemma_div_pos_is_pos(y, 8);
    assert(x / 8 < mw) by (nonlinear_arith)
        requires
            0 <= x < 8 * mw,
    ;
    vstd::arithmetic::div_mod::lemma_fundamental_div_mod_converse(
        (y / 8) * mw + x / 8,
        mw,
        y / 8,
        x / 8,
    );
    vstd::arithmetic::div_mod::lemma_fundamental_div_mod_converse(
        (y % 8) * 8 + x % 8,
        8,
        y % 8,
        x % 8,
    );
}

impl BMP {
    /// Reads the pixel array of a bottom-up BMP into the block raster:
    /// rows from the bottom, each pixel's blue, green and red bytes,
    /// then the row's padding.  The file size declared by the header
    /// must match the pixels exactly; pixels of partial blocks beyond
    /// the image stay zero.
    #[verifier::rlimit(100)]
    #[verifier::spinoff_prover]
    pub fn read_components(&mut self, reader: &mut BitReader) -> (r: Result<(), crate::DecodeError>)
        requires
            old(reader).wf(),
            (3 * old(self).header.width + old(self).header.width % 4) * old(self).header.height
                + 26 <= u32::MAX,
        ensures
            final(reader).wf(),
            final(reader).bytes() == old(reader).bytes(),
            final(self).header == old(self).header,
            ({
                let w = old(self).header.width as int;
                let h = old(self).header.height as int;
                let pad = w % 4;
                let row_len = 3 * w + pad;
                let mw = spec_blocks_across(w);
                let mh = spec_blocks_across(h);
                let base = old(reader).st().pos;
                let data = old(reader).bytes();
                if base + row_len * h <= data.len() {
                    if old(self).header.bmp_size - old(self).header.starting_offset == row_len
                        * h {
                        r == Ok::<(), crate::DecodeError>(()) && final(self).mcus@.len() == mw * mh
                            && final(reader).st().pos == base + row_len * h && (forall|
                            x: int,
                            y: int,
                            j: int,
                        |
                            0 <= x < 8 * mw && 0 <= y < 8 * mh && 0 <= j < 3
                                ==> #[trigger] final(self).mcus@[(y / 8) * mw + x / 8].components@[j].0@[(
                                y % 8) * 8 + x % 8] == (if x < w && y < h {
                                spec_bmp_pixel_byte(data, base, row_len, h, x, y, 2 - j) as i32
                            } else {
                                0i32
                            }))
                    } else {
                        r == Err::<(), crate::DecodeError>(crate::DecodeError::MalformedSegment)
                    }
                } else {
                    r == Err::<(), crate::DecodeError>(crate::DecodeError::Io)
                }
            }),
    {
        let ghost data = reader.bytes();
        let ghost base = reader.st().pos;
        let w: usize = self.header.width as usize;
        let h: usize = self.header.height as usize;
        let pad: usize = w % 4;
        let row_len: usize = 3 * w + pad;
        let mw: usize = (w + 7) / 8;
        let mh: usize = (h + 7) / 8;
        proof {
            crate::jpeg::lemma_blocks_bound(w as int);
            crate::jpeg::lemma_blocks_bound(h as int);
            assert(mw * mh <= 8192 * 8192) by (nonlinear_arith)
                requires
                    0 <= mw <= 8192 && 0 <= mh <= 8192,
            ;
        }
        let total_blocks: usize = mw * mh;
        proof {
            assert(row_len * h <= 0x100000000) by (nonlinear_arith)
                requires
                    row_len * h + 26 <= u32::MAX,
            ;
        }
        let needed: u64 = (row_len as u64) * (h as u64);
        proof {
            assert((row_len as u64) * (h as u64) == row_len * h) by (nonlinear_arith)
                requires
                    row_len <= 0x100000000 && h <= 65535,
            ;
        }
        let have: u64 = (reader.data.len() - reader.pos) as u64;
        if needed > have {
            return Err(crate::DecodeError::Io);
        }
        let mut mcus: Vec<MCU> = Vec::new();
        while mcus.len() < total_blocks
            invariant
                mcus@.len() <= total_blocks,
                forall|i: int, j: int, k: int|
                    0 <= i < mcus@.len() && 0 <= j < 3 && 0 <= k < 64 ==> #[trigger] mcus@[i].components@[j].0@[k] == 0i32,
            decreases total_blocks - mcus@.len(),
        {
            mcus.push(MCU::new());
        }
        self.mcus = mcus;
        proof {
            assert forall|x: int, y: int, j: int|
                0 <= x < 8 * mw && 0 <= y < 8 * mh && 0 <= j < 3
                implies #[trigger] self.mcus@[(y / 8) * mw + x / 8].components@[j].0@[(y % 8) * 8
                + x % 8] == 0i32 by {
                lemma_grid_index_in_range(mw as int, mh as int, total_blocks as int, x, y);
            }
        }
        let mut rows_done: usize = 0;
        while rows_done < h
            invariant
                rows_done <= h,
                reader.wf(),
                reader.bytes() == data,
                data == old(reader).bytes(),
                base == old(reader).st().pos,
                self.header == old(self).header,
                w == self.header.width,
                h == self.header.height,
                pad == w % 4,
                row_len == 3 * w + pad,
                mw == spec_blocks_across(w as int),
                mh == spec_blocks_across(h as int),
                mw <= 8192 && mh <= 8192,
                total_blocks == mw * mh,
                self.mcus@.len() == total_blocks,
                row_len * h + 26 <= u32::MAX,
                base + row_len * h <= data.len(),
                reader.st().pos == base + row_len * rows_done,
                forall|x: int, y: int, j: int|
                    0 <= x < 8 * mw && 0 <= y < 8 * mh && 0 <= j < 3
                        ==> #[trigger] self.mcus@[(y / 8) * mw + x / 8].components@[j].0@[(y % 8)
                        * 8 + x % 8] == (if x < w && h - rows_done <= y < h {
                        spec_bmp_pixel_byte(data, base, row_len as int, h as int, x, y, 2 - j) as i32
                    } else {
                        0i32
                    }),
            decreases h - rows_done,
        {
            let y: usize = h - 1 - rows_done;
            let mcu_row: usize = y / 8;
            let pixel_row: usize = y % 8;
            let mut x: usize = 0;
            while x < w
                invariant
                    x <= w,
                    rows_done < h,
                    y == h - 1 - rows_done,
                    mcu_row == y / 8,
                    pixel_row == y % 8,
                    reader.wf(),
                    reader.bytes() == data,
                    data == old(reader).bytes(),
                    base == old(reader).st().pos,
                    self.header == old(self).header,
                    w == self.header.width,
                    h == self.header.height,
                    pad == w % 4,
                    row_len == 3 * w + pad,
                    mw == spec_blocks_across(w as int),
                    mh == spec_blocks_across(h as int),
                    mw <= 8192 && mh <= 8192,
                    total_blocks == mw * mh,
                    self.mcus@.len() == total_blocks,
                    row_len * h + 26 <= u32::MAX,
                    base + row_len * h <= data.len(),
                    reader.st().pos == base + row_len * rows_done + 3 * x,
                    forall|x2: int, y2: int, j: int|
                        0 <= x2 < 8 * mw && 0 <= y2 < 8 * mh && 0 <= j < 3
                            ==> #[trigger] self.mcus@[(y2 / 8) * mw + x2 / 8].components@[j].0@[(y2
                            % 8) * 8 + x2 % 8] == (if x2 < w && ((h - rows_done <= y2 < h) || (y2
                            == y && x2 < x)) {
                            spec_bmp_pixel_byte(data, base, row_len as int, h as int, x2, y2, 2 - j) as i32
                        } else {
                            0i32
                        }),
                decreases w - x,
            {
                proof {
                    lemma_mcu_index_in_range(
                        w as int,
                        h as int,
                        mw as int,
                        self.mcus@.len() as int,
                        x as int,
                        y as int,
                    );
                    assert(row_len * rows_done + 3 * x + 3 <= row_len * rows_done + row_len);
                    assert(row_len * rows_done + row_len <= row_len * h) by {
                        lemma_row_step(rows_done as int, h as int, row_len as int);
                        vstd::arithmetic::mul::lemma_mul_is_commutative(
                            rows_done as int,
                            row_len as int,
                        );
                        vstd::arithmetic::mul::lemma_mul_is_commutative(h as int, row_len as int);
                    }
                }
                let blue: u8 = match reader.read_byte() {
                    Ok(b) => b,
                    Err(e) => {
                        return Err(e);
                    },
                };
                let green: u8 = match reader.read_byte() {
                    Ok(b) => b,
                    Err(e) => {
                        return Err(e);
                    },
                };
                let red: u8 = match reader.read_byte() {
                    Ok(b) => b,
                    Err(e) => {
                        return Err(e);
                    },
                };
                let mcu_column: usize = x / 8;
                let pixel_column: usize = x % 8;
                let mcu_index: usize = mcu_row * mw + mcu_column;
                let pixel_index: usize = pixel_row * 8 + pixel_column;
                let ghost mcus_prev = self.mcus@;
                let mut m: MCU = self.mcus[mcu_index];
                let mut c2 = m.components[2];
                c2.set(pixel_index, blue as i32);
                m.components[2] = c2;
                let mut c1 = m.components[1];
                c1.set(pixel_index, green as i32);
                m.components[1] = c1;
                let mut c0 = m.components[0];
                c0.set(pixel_index, red as i32);
                m.components[0] = c0;
                self.mcus[mcu_index] = m;
                proof {
                    assert forall|x2: int, y2: int, j: int|
                        0 <= x2 < 8 * mw && 0 <= y2 < 8 * mh && 0 <= j < 3
                            implies #[trigger] self.mcus@[(y2 / 8) * mw + x2 / 8].components@[j].0@[(
                        y2 % 8) * 8 + x2 % 8] == (if x2 < w && ((h - rows_done <= y2 < h) || (y2
                        == y && x2 < x + 1)) {
                        spec_bmp_pixel_byte(data, base, row_len as int, h as int, x2, y2, 2 - j) as i32
                    } else {
                        0i32
                    }) by {
                        lemma_grid_index_in_range(mw as int, mh as int, total_blocks as int, x2, y2);
                        lemma_grid_index_in_range(
                            mw as int,
                            mh as int,
                            total_blocks as int,
                            x as int,
                            y as int,
                        );
                        lemma_grid_bijection(x2, y2, mw as int);
                        lemma_grid_bijection(x as int, y as int, mw as int);
                        let bi = (y2 / 8) * mw + x2 / 8;
                        let pi = (y2 % 8) * 8 + x2 % 8;
                        if bi == mcu_index && pi == pixel_index {
                            assert(x2 / 8 == x as int / 8 && y2 / 8 == y as int / 8 && x2 % 8
                                == x as int % 8 && y2 % 8 == y as int % 8);
                            vstd::arithmetic::div_mod::lemma_fundamental_div_mod(x2, 8);
                            vstd::arithmetic::div_mod::lemma_fundamental_div_mod(x as int, 8);
                            vstd::arithmetic::div_mod::lemma_fundamental_div_mod(y2, 8);
                            vstd::arithmetic::div_mod::lemma_fundamental_div_mod(y as int, 8);
                            assert(x2 == x && y2 == y);
                            assert(self.mcus@[bi] == m);
                            assert(m.components@[2].0@[pi] == blue as i32);
                            assert(m.components@[1].0@[pi] == green as i32);
                            assert(m.components@[0].0@[pi] == red as i32);
                            assert((h - 1 - y2) * row_len == row_len * rows_done) by {
                                vstd::arithmetic::mul::lemma_mul_is_commutative(
                                    rows_done as int,
                                    row_len as int,
                                );
                            }
                            assert(blue == data[base + (h - 1 - y2) * row_len + 3 * x2]);
                            assert(green == data[base + (h - 1 - y2) * row_len + 3 * x2 + 1]);
                            assert(red == data[base + (h - 1 - y2) * row_len + 3 * x2 + 2]);
                        } else {
                            assert(self.mcus@[bi] == mcus_prev[bi] || bi == mcu_index);
                            if bi == mcu_index {
                                assert(self.mcus@[bi] == m);
                                assert(pi != pixel_index);
                                assert(m.components@[j].0@[pi] == mcus_prev[bi].components@[j].0@[pi]);
                            }
                            assert(self.mcus@[bi].components@[j].0@[pi] == mcus_prev[bi].components@[j].0@[pi]);
                            assert(mcus_prev[bi].components@[j].0@[pi] == (if x2 < w && ((h
                                - rows_done <= y2 < h) || (y2 == y && x2 < x)) {
                                spec_bmp_pixel_byte(data, base, row_len as int, h as int, x2, y2, 2 - j) as i32
                            } else {
                                0i32
                            }));
                            assert(!(y2 == y && x2 == x));
                        }
                    }
                }
                x = x + 1;
            }
            let mut p: usize = 0;
            while p < pad
                invariant
                    p <= pad,
                    rows_done < h,
                    y == h - 1 - rows_done,
                    reader.wf(),
                    reader.bytes() == data,
                    data == old(reader).bytes(),
                    base == old(reader).st().pos,
                    self.header == old(self).header,
                    w == self.header.width,
                    h == self.header.height,
                    pad == w % 4,
                    row_len == 3 * w + pad,
                    mw == spec_blocks_across(w as int),
                    mh == spec_blocks_across(h as int),
                    mw <= 8192 && mh <= 8192,
                    total_blocks == mw * mh,
                    self.mcus@.len() == total_blocks,
                    row_len * h + 26 <= u32::MAX,
                    base + row_len * h <= data.len(),
                    reader.st().pos == base + row_len * rows_done + 3 * w + p,
                    forall|x2: int, y2: int, j: int|
                        0 <= x2 < 8 * mw && 0 <= y2 < 8 * mh && 0 <= j < 3
                            ==> #[trigger] self.mcus@[(y2 / 8) * mw + x2 / 8].components@[j].0@[(y2
                            % 8) * 8 + x2 % 8] == (if x2 < w && (h - rows_done - 1 <= y2 < h) {
                            spec_bmp_pixel_byte(data, base, row_len as int, h as int, x2, y2, 2 - j) as i32
                        } else {
                            0i32
                        }),
                decreases pad - p,
            {
                proof {
                    assert(row_len * rows_done + 3 * w + p + 1 <= row_len * rows_done + row_len);
                    assert(row_len * rows_done + row_len <= row_len * h) by {
                        lemma_row_step(rows_done as int, h as int, row_len as int);
                        vstd::arithmetic::mul::lemma_mul_is_commutative(
                            rows_done as int,
                            row_len as int,
                        );
                        vstd::arithmetic::mul::lemma_mul_is_commutative(h as int, row_len as int);
                    }
                }
                match reader.read_byte() {
                    Ok(_b) => (),
                    Err(e) => {
                        return Err(e);
                    },
                }
                p = p + 1;
            }
            rows_done = rows_done + 1;
            proof {
                assert(row_len * rows_done == row_len * (rows_done - 1) + row_len) by {
                    vstd::arithmetic::mul::lemma_mul_is_distributive_sub(
                        row_len as int,
                        rows_done as int,
                        1,
                    );
                }
            }
        }
        let declared: u64 = self.header.bmp_size as u64;
        let offset: u64 = self.header.starting_offset as u64;
        let expected: u64 = (row_len as u64) * (h as u64);
        proof {
            assert((row_len as u64) * (h as u64) == row_len * h) by (nonlinear_arith)
                requires
                    row_len <= 0x100000000 && h <= 65535,
            ;
        }
        if declared < offset || declared - offset != expected {
            return Err(crate::DecodeError::MalformedSegment);
        }
        Ok(())
    }

    /// Parses a whole BMP byte stream: the header, then the pixel
    /// array.
    pub fn from_bytes(data: Vec<u8>) -> (r: Result<BMP, crate::DecodeError>)
        ensures
            match spec_parse_bmp_header(data@, ReaderState { pos: 0, bit: 0, cur: 0u8 }) {
                Err(e) => r == Err::<BMP, crate::DecodeError>(e),
                Ok((hdr, st2)) => {
                    let w = hdr.width as int;
                    let h = hdr.height as int;
                    let row_len = 3 * w + w % 4;
                    if row_len * h + 26 > u32::MAX {
                        r == Err::<BMP, crate::DecodeError>(crate::DecodeError::MalformedSegment)
                    } else if st2.pos + row_len * h <= data@.len() {
                        if hdr.bmp_size - hdr.starting_offset == row_len * h {
                            r is Ok && r->Ok_0.header == hdr && r->Ok_0.mcus@.len()
                                == spec_blocks_across(w) * spec_blocks_across(h) && (forall|
                                x: int,
                                y: int,
                                j: int,
                            |
                                0 <= x < 8 * spec_blocks_across(w) && 0 <= y < 8
                                    * spec_blocks_across(h) && 0 <= j < 3
                                    ==> #[trigger] r->Ok_0.mcus@[(y / 8) * spec_blocks_across(w) + x
                                    / 8].components@[j].0@[(y % 8) * 8 + x % 8] == (if x < w && y
                                    < h {
                                    spec_bmp_pixel_byte(data@, st2.pos, row_len, h, x, y, 2
                                        - j) as i32
                                } else {
                                    0i32
                                }))
                        } else {
                            r == Err::<BMP, crate::DecodeError>(
                                crate::DecodeError::MalformedSegment,
                            )
                        }
                    } else {
                        r == Err::<BMP, crate::DecodeError>(crate::DecodeError::Io)
                    }
                },
            },
    {
        let mut reader = BitReader::new(data);
        let header: BMPHeader = match BMPHeader::from_binary(&mut reader) {
            Ok(h) => h,
            Err(e) => {
                return Err(e);
            },
        };
        let w32: u32 = header.width as u32;
        let h32: u32 = header.height as u32;
        let row_len64: u64 = 3 * (w32 as u64) + (w32 as u64) % 4;
        proof {
            assert(row_len64 * h32 <= 200000 * 65536) by (nonlinear_arith)
                requires
                    0 <= row_len64 <= 200000 && 0 <= h32 <= 65535,
            ;
        }
        let total64: u64 = row_len64 * (h32 as u64);
        proof {
            assert(row_len64 * h32 == (3 * header.width + header.width % 4) * header.height)
                by (nonlinear_arith)
                requires
                    row_len64 == 3 * header.width + header.width % 4 && h32 == header.height,
            ;
        }
        if total64 + 26 > 0xFFFFFFFF {
            return Err(crate::DecodeError::MalformedSegment);
        }
        let mut bmp = BMP { header, mcus: Vec::new() };
        match bmp.read_components(&mut reader) {
            Ok(()) => (),
            Err(e) => {
                return Err(e);
            },
        }
        Ok(bmp)
    }
}

} // verus!
