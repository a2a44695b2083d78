//! Minimum coded units and the entropy decoder.
//!
//! One MCU holds three 64-entry coefficient blocks.  Over a decode they
//! hold, in turn: quantised DCT coefficients, dequantised coefficients,
//! spatial samples, and finally RGB values.

use vstd::prelude::*;

use crate::bit_reader::{
    pow2_int, spec_read_bit, spec_read_bits, spec_read_bits_acc, BitReader, ReaderState,
};
use crate::huffman::{HTableV, HuffmanTable};
use crate::quantization_table::QuantizationTable;
use crate::{zigzag_spec, DecodeError};

verus! {

/// One component's 64 coefficients, in raster order.
#[derive(Clone, Copy, Debug)]
pub struct MCUComponent(pub [i32; 64]);

/// An 8x8 block of three components: Y, Cb, Cr on the way in; R, G, B
/// once the colour converter has run.
#[derive(Clone, Copy, Debug)]
pub struct MCU {
    pub components: [MCUComponent; 3],
}

/// Scans the symbols of code length `i + 1` (indices `j` up to
/// `offsets[i+1]`) for one whose canonical code equals `code`.
pub open spec fn spec_find_code(t: HTableV, i: int, code: int, j: int) -> Option<u8>
    decreases t.offsets[i + 1] - j,
{
    if j < 0 || j >= t.offsets[i + 1] {
        None
    } else if t.codes[j] == code {
        Some(t.symbols[j])
    } else {
        spec_find_code(t, i, code, j + 1)
    }
}

/// Huffman next-symbol from bit round `i` with the partial code word
/// `code`: shift in one bit at a time, up to sixteen, and after each
/// shift scan the symbols of that exact length for a match.
pub open spec fn spec_next_symbol_from(
    data: Seq<u8>,
    st: ReaderState,
    t: HTableV,
    i: int,
    code: int,
) -> Result<(ReaderState, u8), DecodeError>
    decreases 16 - i,
{
    if i >= 16 {
        Err(DecodeError::HuffmanMiss)
    } else {
        match spec_read_bit(data, st) {
            Err(e) => Err(e),
            Ok((st2, b)) => {
                let code2 = 2 * code + b;
                match spec_find_code(t, i, code2, t.offsets[i] as int) {
                    Some(s) => Ok((st2, s)),
                    None => spec_next_symbol_from(data, st2, t, i + 1, code2),
                }
            },
        }
    }
}

/// The next Huffman symbol of the entropy stream under table `t`.
pub open spec fn spec_next_symbol(data: Seq<u8>, st: ReaderState, t: HTableV) -> Result<
    (ReaderState, u8),
    DecodeError,
> {
    spec_next_symbol_from(data, st, t, 0, 0)
}

/// Sign extension of a `t`-bit magnitude field: values below
/// `2^(t-1)` stand for `v - (2^t - 1)`.
pub open spec fn spec_extend(v: int, t: int) -> int {
    if t > 0 && v < pow2_int(t - 1) {
        v - (pow2_int(t) - 1)
    } else {
        v
    }
}

/// Two's-complement wrap of a sum into the 32-bit signed range.
pub open spec fn wrap_add_i32(a: int, b: int) -> int {
    if a + b > i32::MAX {
        a + b - 0x100000000
    } else if a + b < i32::MIN {
        a + b + 0x100000000
    } else {
        a + b
    }
}

/// The DC coefficient of one block: a magnitude category read from the
/// DC table (at most eleven), that many raw bits, sign extension, and
/// the running DC predictor added with 32-bit wrap-around.
pub open spec fn spec_decode_dc(
    data: Seq<u8>,
    st: ReaderState,
    dc_table: HTableV,
    prev_dc: i32,
) -> Result<(ReaderState, i32), DecodeError> {
    match spec_next_symbol(data, st, dc_table) {
        Err(e) => Err(e),
        Ok((st1, s)) => if s > 11 {
            Err(DecodeError::MalformedSegment)
        } else {
            match spec_read_bits(data, st1, s as int) {
                Err(e) => Err(e),
                Ok((st2, v)) => Ok(
                    (st2, wrap_add_i32(spec_extend(v as int, s as int), prev_dc as int) as i32),
                ),
            }
        },
    }
}

/// The AC pass of one block from zig-zag index `k`: run/size symbols,
/// end-of-block at `0x00`, magnitudes of at most ten bits, and writes
/// at de-zig-zagged positions.
pub open spec fn spec_decode_ac(
    data: Seq<u8>,
    st: ReaderState,
    ac_table: HTableV,
    k: int,
    comp: Seq<i32>,
) -> Result<(ReaderState, Seq<i32>), DecodeError>
    decreases 64 - k,
{
    if k >= 64 {
        Ok((st, comp))
    } else {
        match spec_next_symbol(data, st, ac_table) {
            Err(e) => Err(e),
            Ok((st1, s)) => {
                if s == 0 {
                    Ok((st1, comp))
                } else {
                    let t = (s & 0x0F) as int;
                    let run = ((s >> 4u8) & 0x0F) as int;
                    if t > 10 {
                        Err(DecodeError::MalformedSegment)
                    } else if k + run >= 64 {
                        Err(DecodeError::AcOverflow)
                    } else if t != 0 {
                        match spec_read_bits(data, st1, t) {
                            Err(e) => Err(e),
                            Ok((st2, v)) => spec_decode_ac(
                                data,
                                st2,
                                ac_table,
                                k + run + 1,
                                comp.update(zigzag_spec(k + run), spec_extend(v as int, t) as i32),
                            ),
                        }
                    } else {
                        spec_decode_ac(data, st1, ac_table, k + run + 1, comp)
                    }
                }
            },
        }
    }
}

/// One whole block: the DC coefficient lands at position zero and
/// becomes the new predictor, then the AC pass fills the rest.
pub open spec fn spec_decode_block(
    data: Seq<u8>,
    st: ReaderState,
    dc_table: HTableV,
    ac_table: HTableV,
    prev_dc: i32,
    comp: Seq<i32>,
) -> Result<(ReaderState, Seq<i32>, i32), DecodeError> {
    match spec_decode_dc(data, st, dc_table, prev_dc) {
        Err(e) => Err(e),
        Ok((st1, dc)) => match spec_decode_ac(data, st1, ac_table, 1, comp.update(0, dc)) {
            Err(e) => Err(e),
            Ok((st2, comp2)) => Ok((st2, comp2, dc)),
        },
    }
}

/// Pointwise product of a block and a quantisation table, each entry
/// wrapped into the 32-bit signed range.
pub open spec fn spec_dequantize(comp: Seq<i32>, q: Seq<u16>) -> Seq<i32> {
    Seq::new(64, |i: int| vstd::wrapping::i32_specs::wrapping_mul(comp[i], q[i] as i32))
}

/// Rounded fixed-point product with a coefficient given in
/// thousandths: nearest integer, halves away from zero.
pub open spec fn round_div1000(n: int) -> int {
    if n >= 0 {
        (n + 500) / 1000
    } else {
        -(((-n) + 500) / 1000)
    }
}

/// Clamp to the 8-bit sample range.
pub open spec fn spec_clamp255(x: int) -> int {
    if x < 0 {
        0
    } else if x > 255 {
        255
    } else {
        x
    }
}

/// Red from level-shifted YCbCr: `round(Y + 1.402 Cr) + 128`, clamped.
pub open spec fn spec_red(y: int, cr: int) -> int {
    spec_clamp255(y + round_div1000(1402 * cr) + 128)
}

/// Green from level-shifted YCbCr: `round(Y - 0.344 Cb - 0.714 Cr) + 128`,
/// clamped.
pub open spec fn spec_green(y: int, cb: int, cr: int) -> int {
    spec_clamp255(y + round_div1000(-344 * cb - 714 * cr) + 128)
}

/// Blue from level-shifted YCbCr: `round(Y + 1.772 Cb) + 128`, clamped.
pub open spec fn spec_blue(y: int, cb: int) -> int {
    spec_clamp255(y + round_div1000(1772 * cb) + 128)
}

/// Nearest integer to `n / 1000`, halves away from zero.
fn round_div1000_exec(n: i64) -> (r: i64)
    requires
        -0x100000000000 <= n <= 0x100000000000,
    ensures
        r == round_div1000(n as int),
{
    if n >= 0 {
        (n + 500) / 1000
    } else {
        -((-n + 500) / 1000)
    }
}

impl MCUComponent {
    /// A block of zeroes.
    pub fn new() -> (r: MCUComponent)
        ensures
            r.0@ == Seq::<i32>::new(64, |i: int| 0i32),
    {
        let r = MCUComponent([0i32; 64]);
        assert(r.0@ =~= Seq::<i32>::new(64, |i: int| 0i32));
        r
    }

    /// The coefficient at raster position `i`.
    pub fn get(&self, i: usize) -> (r: i32)
        requires
            i < 64,
        ensures
            r == self.0@[i as int],
    {
        self.0[i]
    }

    /// Sets the coefficient at raster position `i`.
    pub fn set(&mut self, i: usize, v: i32)
        requires
            i < 64,
        ensures
            final(self).0@ == old(self).0@.update(i as int, v),
    {
        self.0[i] = v;
    }

    /// Multiplies each coefficient by the matching entry of `table`,
    /// with 32-bit wrap-around.
    pub fn dequantize(&mut self, table: &QuantizationTable)
        ensures
            final(self).0@ == spec_dequantize(old(self).0@, table.table@),
    {
        let mut i: usize = 0;
        while i < 64
            invariant
                i <= 64,
                self.0@.len() == 64,
                forall|j: int| 0 <= j < i ==> self.0@[j] == spec_dequantize(old(self).0@, table.table@)[j],
                forall|j: int| i <= j < 64 ==> self.0@[j] == old(self).0@[j],
            decreases 64 - i,
        {
            let v: i32 = self.0[i].wrapping_mul(table.table[i] as i32);
            self.0[i] = v;
            i = i + 1;
        }
        assert(self.0@ =~= spec_dequantize(old(self).0@, table.table@));
    }
}

impl Default for MCU {
    /// An MCU of three zero blocks.
    fn default() -> (r: MCU)
        ensures
            r.components@.len() == 3,
            forall|j: int| 0 <= j < 3 ==> r.components@[j].0@ == Seq::<i32>::new(64, |i: int| 0i32),
    {
        MCU::new()
    }
}

impl Default for MCUComponent {
    /// A block of zeroes.
    fn default() -> (r: MCUComponent)
        ensures
            r.0@ == Seq::<i32>::new(64, |i: int| 0i32),
    {
        MCUComponent::new()
    }
}

impl MCU {
    /// An MCU of three zero blocks.
    pub fn new() -> (r: MCU)
        ensures
            r.components@.len() == 3,
            forall|j: int| 0 <= j < 3 ==> r.components@[j].0@ == Seq::<i32>::new(64, |i: int| 0i32),
    {
        MCU { components: [MCUComponent::new(), MCUComponent::new(), MCUComponent::new()] }
    }

    /// The component at index `i`, or nothing past the third.
    pub fn component(&self, i: usize) -> (r: Option<&MCUComponent>)
        ensures
            i < 3 ==> r == Some(&self.components[i as int]),
            i >= 3 ==> r is None,
    {
        if i < 3 {
            Some(&self.components[i])
        } else {
            None
        }
    }

    /// The next Huffman symbol of the entropy stream: bits shift into a
    /// code word, and after each of up to sixteen shifts the symbols of
    /// that exact length are scanned for a match.
    pub fn next_symbol(reader: &mut BitReader, table: &HuffmanTable) -> (r: Result<
        u8,
        DecodeError,
    >)
        requires
            old(reader).wf(),
            table@.offsets_wf(),
        ensures
            final(reader).wf(),
            final(reader).bytes() == old(reader).bytes(),
            match spec_next_symbol(old(reader).bytes(), old(reader).st(), table@) {
                Ok((st2, s)) => r == Ok::<u8, DecodeError>(s) && final(reader).st() == st2,
                Err(e) => r == Err::<u8, DecodeError>(e),
            },
    {
        let ghost data = reader.bytes();
        let ghost target = spec_next_symbol(data, reader.st(), table@);
        let mut code: u32 = 0;
        let mut i: usize = 0;
        while i < 16
            invariant
                i <= 16,
                reader.wf(),
                reader.bytes() == data,
                data == old(reader).bytes(),
                table@.offsets_wf(),
                0 <= code < pow2_int(i as int),
                target == spec_next_symbol(data, old(reader).st(), table@),
                spec_next_symbol_from(data, reader.st(), table@, i as int, code as int) == target,
            decreases 16 - i,
        {
            proof {
                crate::bit_reader::lemma_pow2_int_monotone(i as int, 15);
                assert(pow2_int(15) == 32768) by {
                    reveal_with_fuel(pow2_int, 16);
                }
            }
            let b: u8 = match reader.read_bit() {
                Ok(b) => b,
                Err(e) => {
                    return Err(e);
                },
            };
            code = 2 * code + b as u32;
            let lo: u8 = table.offsets(i);
            let hi: u8 = table.offsets(i + 1);
            let mut j: usize = lo as usize;
            while j < hi as usize
                invariant
                    lo as usize <= j,
                    j <= 162,
                    hi <= 162,
                    i < 16,
                    reader.wf(),
                    reader.bytes() == data,
                    data == old(reader).bytes(),
                    table@.offsets_wf(),
                    0 <= code < pow2_int(i as int + 1),
                    hi == table@.offsets[i as int + 1],
                    target == spec_next_symbol(data, old(reader).st(), table@),
                    spec_find_code(table@, i as int, code as int, j as int) is Some ==> Ok::<
                        (ReaderState, u8),
                        DecodeError,
                    >((reader.st(), spec_find_code(table@, i as int, code as int, j as int)->0))
                        == target,
                    spec_find_code(table@, i as int, code as int, j as int) is None
                        ==> spec_next_symbol_from(data, reader.st(), table@, i as int + 1, code as int)
                        == target,
                decreases hi - j,
            {
                if code == table.codes(j) {
                    return Ok(table.symbols(j));
                }
                j = j + 1;
            }
            i = i + 1;
        }
        Err(DecodeError::HuffmanMiss)
    }

    /// Decodes one component's block: DC then AC, writing coefficients
    /// at de-zig-zagged positions and updating the DC predictor.
    pub fn decode(
        &mut self,
        component_id: usize,
        reader: &mut BitReader,
        previous_dc: &mut i32,
        ac_table: &HuffmanTable,
        dc_table: &HuffmanTable,
    ) -> (r: Result<(), DecodeError>)
        requires
            old(reader).wf(),
            component_id < 3,
            ac_table@.offsets_wf(),
            dc_table@.offsets_wf(),
        ensures
            final(reader).wf(),
            final(reader).bytes() == old(reader).bytes(),
            match spec_decode_block(
                old(reader).bytes(),
                old(reader).st(),
                dc_table@,
                ac_table@,
                *old(previous_dc),
                old(self).components@[component_id as int].0@,
            ) {
                Ok((st2, comp2, dc)) => r == Ok::<(), DecodeError>(()) && final(reader).st() == st2
                    && final(self).components@ == old(self).components@.update(
                    component_id as int,
                    MCUComponent(final(self).components@[component_id as int].0),
                ) && final(self).components@[component_id as int].0@ == comp2 && *final(previous_dc)
                    == dc,
                Err(e) => r == Err::<(), DecodeError>(e),
            },
    {
        let ghost data = reader.bytes();
        let ghost st0 = reader.st();
        let ghost comp0 = self.components@[component_id as int].0@;
        let ghost target = spec_decode_block(
            data,
            st0,
            dc_table@,
            ac_table@,
            *previous_dc,
            comp0,
        );
        let length: u8 = match Self::next_symbol(reader, dc_table) {
            Ok(s) => s,
            Err(e) => {
                return Err(e);
            },
        };
        if length > 11 {
            return Err(DecodeError::MalformedSegment);
        }
        let raw: i32 = match reader.read_bits(length as usize) {
            Ok(v) => v,
            Err(e) => {
                return Err(e);
            },
        };
        let coefficient: i32 = extend_coefficient(raw, length as usize);
        let dc: i32 = coefficient.wrapping_add(*previous_dc);
        assert(dc as int == wrap_add_i32(spec_extend(raw as int, length as int), *previous_dc as int));
        let mut comp: [i32; 64] = self.components[component_id].0;
        comp[0] = dc;
        *previous_dc = dc;
        let ghost target_ac = spec_decode_ac(data, reader.st(), ac_table@, 1, comp@);
        assert(comp@ == comp0.update(0, dc)) by {
            assert(comp@ =~= comp0.update(0, dc));
        }
        let zigzag: [usize; 64] = crate::zigzag_map();
        let mut k: usize = 1;
        while k < 64
            invariant
                1 <= k <= 64,
                reader.wf(),
                reader.bytes() == data,
                data == old(reader).bytes(),
                ac_table@.offsets_wf(),
                comp@.len() == 64,
                forall|j: int| 0 <= j < 64 ==> zigzag[j] == zigzag_spec(j),
                self == old(self),
                component_id < 3,
                *previous_dc == dc,
                (target_ac matches Ok((st2, comp2)) ==> target == Ok::<
                    (ReaderState, Seq<i32>, i32),
                    DecodeError,
                >((st2, comp2, dc))),
                (target_ac matches Err(e) ==> target == Err::<
                    (ReaderState, Seq<i32>, i32),
                    DecodeError,
                >(e)),
                target == spec_decode_block(
                    data,
                    st0,
                    dc_table@,
                    ac_table@,
                    *old(previous_dc),
                    comp0,
                ),
                comp0 == old(self).components@[component_id as int].0@,
                st0 == old(reader).st(),
                spec_decode_ac(data, reader.st(), ac_table@, k as int, comp@) == target_ac,
            decreases 64 - k,
        {
            let symbol: u8 = match Self::next_symbol(reader, ac_table) {
                Ok(s) => s,
                Err(e) => {
                    return Err(e);
                },
            };
            if symbol == 0x00 {
                self.components[component_id] = MCUComponent(comp);
                return Ok(());
            }
            let coefficient_length: u8 = symbol & 0x0F;
            if coefficient_length > 10 {
                return Err(DecodeError::MalformedSegment);
            }
            let skip_zeros: u8 = (symbol >> 4u8) & 0x0F;
            assert((symbol >> 4u8) & 0x0F <= 15) by (bit_vector);
            if k + (skip_zeros as usize) >= 64 {
                return Err(DecodeError::AcOverflow);
            }
            k = k + skip_zeros as usize;
            if coefficient_length != 0 {
                let raw_ac: i32 = match reader.read_bits(coefficient_length as usize) {
                    Ok(v) => v,
                    Err(e) => {
                        return Err(e);
                    },
                };
                let c: i32 = extend_coefficient(raw_ac, coefficient_length as usize);
                proof {
                    crate::lemma_zigzag_in_range(k as int);
                }
                comp[zigzag[k]] = c;
            }
            k = k + 1;
        }
        self.components[component_id] = MCUComponent(comp);
        Ok(())
    }

    /// Converts the MCU's samples from level-shifted YCbCr to RGB in
    /// place: component 0 becomes red, 1 green, 2 blue, each clamped to
    /// `[0, 255]`.
    pub fn ycbcr_to_rgb(&mut self)
        ensures
            forall|i: int|
                0 <= i < 64 ==> {
                    let y = old(self).components@[0].0@[i] as int;
                    let cb = old(self).components@[1].0@[i] as int;
                    let cr = old(self).components@[2].0@[i] as int;
                    #[trigger] final(self).components@[0].0@[i] == spec_red(y, cr) && final(self).components@[1].0@[i] == spec_green(y, cb, cr) && final(self).components@[2].0@[i] == spec_blue(y, cb)
                },
            forall|j: int, i: int|
                0 <= j < 3 && 0 <= i < 64 ==> 0 <= #[trigger] final(self).components@[j].0@[i] <= 255,
    {
        let mut i: usize = 0;
        let mut red: [i32; 64] = self.components[0].0;
        let mut green: [i32; 64] = self.components[1].0;
        let mut blue: [i32; 64] = self.components[2].0;
        while i < 64
            invariant
                i <= 64,
                self == old(self),
                red@.len() == 64,
                green@.len() == 64,
                blue@.len() == 64,
                forall|j: int|
                    0 <= j < i ==> {
                        let y = old(self).components@[0].0@[j] as int;
                        let cb = old(self).components@[1].0@[j] as int;
                        let cr = old(self).components@[2].0@[j] as int;
                        #[trigger] red@[j] == spec_red(y, cr) && green@[j] == spec_green(y, cb, cr)
                            && blue@[j] == spec_blue(y, cb)
                    },
                forall|j: int| 0 <= j < i ==> 0 <= #[trigger] red@[j] <= 255,
                forall|j: int| 0 <= j < i ==> 0 <= #[trigger] green@[j] <= 255,
                forall|j: int| 0 <= j < i ==> 0 <= #[trigger] blue@[j] <= 255,
            decreases 64 - i,
        {
            let y: i64 = self.components[0].0[i] as i64;
            let cb: i64 = self.components[1].0[i] as i64;
            let cr: i64 = self.components[2].0[i] as i64;
            let cb_scaled: i64 = 344 * cb;
            let cr_scaled: i64 = 714 * cr;
            let r_val: i64 = y + round_div1000_exec(1402 * cr) + 128;
            let g_val: i64 = y + round_div1000_exec(0 - cb_scaled - cr_scaled) + 128;
            let b_val: i64 = y + round_div1000_exec(1772 * cb) + 128;
            assert(0 - cb_scaled - cr_scaled == -344 * (old(self).components@[1].0@[i as int] as int) - 714 * (old(self).components@[2].0@[i as int] as int));
            red[i] = clamp255(r_val);
            green[i] = clamp255(g_val);
            blue[i] = clamp255(b_val);
            proof {
                let yi = old(self).components@[0].0@[i as int] as int;
                let cbi = old(self).components@[1].0@[i as int] as int;
                let cri = old(self).components@[2].0@[i as int] as int;
                assert(y == yi && cb == cbi && cr == cri);
                assert(red@[i as int] == spec_red(yi, cri));
                assert(green@[i as int] == spec_green(yi, cbi, cri));
                assert(blue@[i as int] == spec_blue(yi, cbi));
            }
            i = i + 1;
        }
        self.components[0] = MCUComponent(red);
        self.components[1] = MCUComponent(green);
        self.components[2] = MCUComponent(blue);
    }
}

/// Clamp to the 8-bit sample range.
fn clamp255(x: i64) -> (r: i32)
    ensures
        r == spec_clamp255(x as int),
        0 <= r <= 255,
{
    if x < 0 {
        0
    } else if x > 255 {
        255
    } else {
        x as i32
    }
}

/// Sign extension of a `t`-bit magnitude field.
fn extend_coefficient(v: i32, t: usize) -> (r: i32)
    requires
        t <= 11,
        0 <= v < pow2_int(t as int),
    ensures
        r == spec_extend(v as int, t as int),
{
    if t != 0 {
        proof {
            crate::bit_reader::lemma_pow2_int_monotone(t as int - 1, 10);
            assert(pow2_int(10) == 1024) by {
                reveal_with_fuel(pow2_int, 11);
            }
        }
        let threshold: i32 = crate::bit_reader::pow2_i32(t - 1);
        if v < threshold {
            return v - (2 * threshold - 1);
        }
    }
    v
}


/// Bits packed onto `acc` land in the window `[acc * 2^n, (acc + 1) * 2^n)`.
pub proof fn lemma_read_bits_bound(data: Seq<u8>, st: ReaderState, n: int, acc: i32)
    requires
        0 <= acc,
        0 <= n,
        (acc + 1) * pow2_int(n) <= 0x7FFFFFFF,
        crate::bit_reader::spec_read_bits_acc(data, st, n, acc) is Ok,
    ensures
        ({
            let v = crate::bit_reader::spec_read_bits_acc(data, st, n, acc)->Ok_0.1;
            acc * pow2_int(n) <= v < (acc + 1) * pow2_int(n)
        }),
    decreases n,
{
    crate::bit_reader::lemma_pow2_int_pos(n);
    if n == 0 {
        assert(pow2_int(0) == 1);
        let v = crate::bit_reader::spec_read_bits_acc(data, st, n, acc)->Ok_0.1;
        assert(v == acc);
        assert(acc * 1 == acc) by (nonlinear_arith);
        assert((acc + 1) * 1 == acc + 1) by (nonlinear_arith);
    } else {
        match spec_read_bit(data, st) {
            Ok((st2, b)) => {
                assert(forall|x: u8, s: u8| #[trigger] ((x >> s) & 1) <= 1) by (bit_vector);
                assert(b <= 1);
                let acc2 = 2 * acc + b;
                let p1 = pow2_int(n - 1);
                crate::bit_reader::lemma_pow2_int_pos(n - 1);
                assert((acc2 + 1) * p1 <= (2 * acc + 2) * p1) by (nonlinear_arith)
                    requires
                        acc2 + 1 <= 2 * acc + 2 && p1 >= 1,
                ;
                assert((2 * acc + 2) * p1 == (acc + 1) * (2 * p1)) by (nonlinear_arith);
                assert(acc2 <= 0x7FFFFFFF) by (nonlinear_arith)
                    requires
                        (acc2 + 1) * p1 <= (acc + 1) * (2 * p1) && (acc + 1) * (2 * p1)
                            <= 0x7FFFFFFF && p1 >= 1 && acc2 >= 0,
                ;
                lemma_read_bits_bound(data, st2, n - 1, acc2 as i32);
                let v = crate::bit_reader::spec_read_bits_acc(data, st, n, acc)->Ok_0.1;
                assert(acc2 * p1 <= v < (acc2 + 1) * p1);
                assert(acc * (2 * p1) == (2 * acc) * p1) by (nonlinear_arith);
                assert((2 * acc) * p1 <= acc2 * p1) by (nonlinear_arith)
                    requires
                        2 * acc <= acc2 && p1 >= 1,
                ;
                assert(pow2_int(n) == 2 * p1);
                assert(acc * pow2_int(n) == acc * (2 * p1));
                assert((acc + 1) * pow2_int(n) == (acc + 1) * (2 * p1));
                assert(acc2 as i32 == acc2);
                assert(spec_read_bits_acc(data, st, n, acc) == spec_read_bits_acc(
                    data,
                    st2,
                    n - 1,
                    acc2 as i32,
                ));
                let v = spec_read_bits_acc(data, st, n, acc)->Ok_0.1;
                assert(acc2 * p1 <= v < (acc2 + 1) * p1);
                assert(acc * pow2_int(n) <= v);
                assert(v < (acc + 1) * pow2_int(n));
            },
            Err(_) => {},
        }
    }
}

/// The AC pass writes only non-zero coefficients, and never position
/// zero: whatever it does not write keeps its old value.
pub proof fn lemma_decode_ac_spectrum(
    data: Seq<u8>,
    st: ReaderState,
    ac_table: HTableV,
    k: int,
    comp: Seq<i32>,
)
    requires
        comp.len() == 64,
        1 <= k,
        spec_decode_ac(data, st, ac_table, k, comp) is Ok,
    ensures
        ({
            let comp2 = spec_decode_ac(data, st, ac_table, k, comp)->Ok_0.1;
            comp2.len() == 64 && comp2[0] == comp[0] && (forall|p: int|
                0 <= p < 64 ==> #[trigger] comp2[p] == comp[p] || comp2[p] != 0)
        }),
    decreases 64 - k,
{
    if k < 64 {
        match spec_next_symbol(data, st, ac_table) {
            Ok((st1, s)) => {
                if s != 0 {
                    let t = (s & 0x0F) as int;
                    let run = ((s >> 4u8) & 0x0F) as int;
                    if t <= 10 && k + run < 64 {
                        if t != 0 {
                            match crate::bit_reader::spec_read_bits(data, st1, t) {
                                Ok((st2, v)) => {
                                    crate::bit_reader::lemma_pow2_int_monotone(t, 11);
                                    assert(pow2_int(11) == 2048) by {
                                        reveal_with_fuel(pow2_int, 12);
                                    }
                                    lemma_read_bits_bound(data, st1, t, 0);
                                    crate::bit_reader::lemma_pow2_int_monotone(t - 1, t);
                                    crate::bit_reader::lemma_pow2_int_pos(t - 1);
                                    let c = spec_extend(v as int, t);
                                    assert(pow2_int(t) == 2 * pow2_int(t - 1));
                                    assert(c != 0);
                                    if zigzag_spec(k + run) == 0 {
                                        crate::lemma_zigzag_injective(0, k + run);
                                        assert(false);
                                    }
                                    lemma_decode_ac_spectrum(
                                        data,
                                        st2,
                                        ac_table,
                                        k + run + 1,
                                        comp.update(zigzag_spec(k + run), c as i32),
                                    );
                                    crate::lemma_zigzag_in_range(k + run);
                                },
                                Err(_) => {},
                            }
                        } else {
                            lemma_decode_ac_spectrum(data, st1, ac_table, k + run + 1, comp);
                        }
                    }
                }
            },
            Err(_) => {},
        }
    }
}

/// After entropy decoding a block that started all zero, position zero
/// holds the running DC sum, and the AC pass wrote only non-zero
/// values at the positions it named: every other position still holds
/// its zero, so exactly the written positions are non-zero before the
/// implied-zero tail.
pub proof fn lemma_decode_block_spectrum(
    data: Seq<u8>,
    st: ReaderState,
    dc_table: HTableV,
    ac_table: HTableV,
    prev_dc: i32,
    comp: Seq<i32>,
)
    requires
        comp.len() == 64,
        spec_decode_block(data, st, dc_table, ac_table, prev_dc, comp) is Ok,
    ensures
        ({
            let (st2, comp2, dc) = spec_decode_block(
                data,
                st,
                dc_table,
                ac_table,
                prev_dc,
                comp,
            )->Ok_0;
            comp2.len() == 64 && comp2[0] == dc && (forall|p: int|
                1 <= p < 64 ==> #[trigger] comp2[p] == comp[p] || comp2[p] != 0)
        }),
{
    match spec_decode_dc(data, st, dc_table, prev_dc) {
        Ok((st1, dc)) => {
            lemma_decode_ac_spectrum(data, st1, ac_table, 1, comp.update(0, dc));
        },
        Err(_) => {},
    }
}


impl MCU {
    /// The component at index `i`, mutably, or nothing past the third.
    pub fn component_mut(&mut self, i: usize) -> (r: Option<&mut MCUComponent>)
        ensures
            i < 3 ==> (r matches Some(m) && *m == old(self).components@[i as int] && final(self).components@ == old(self).components@.update(i as int, *final(m))),
            i >= 3 ==> r is None && *final(self) == *old(self),
    {
        if i < 3 {
            Some(&mut self.components[i])
        } else {
            None
        }
    }

    /// The component at index `i`, mutably, or nothing past the third.
    pub fn get_mut(&mut self, i: usize) -> (r: Option<&mut MCUComponent>)
        ensures
            i < 3 ==> (r matches Some(m) && *m == old(self).components@[i as int] && final(self).components@ == old(self).components@.update(i as int, *final(m))),
            i >= 3 ==> r is None && *final(self) == *old(self),
    {
        if i < 3 {
            Some(&mut self.components[i])
        } else {
            None
        }
    }
}

} // verus!
