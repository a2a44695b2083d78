//! The inverse DCT, in the Arai-Agui-Nakajima factorisation.
//!
//! Each 1-D pass pre-scales the eight coefficients by `S[k]`
//! (`S[0] = 1/sqrt(8)`, `S[k] = cos(k pi/16)/2`), permutes them into
//! AAN order, runs the AAN butterfly (whose constants derive from
//! `cos(k pi/8)` and `cos(3 pi/8)`), and combines the outputs in the
//! final add/subtract stage.  The irrational constants are held in
//! fixed point with twelve fractional bits, so every pass multiplies
//! the scale by `2^24`; after the row pass and the column pass one
//! rounded division by `2^48` brings the samples back to integers.

use vstd::prelude::*;

verus! {

/// The widening view of a block of 32-bit coefficients.
pub open spec fn ints_of_i32(s: Seq<i32>) -> Seq<int> {
    Seq::new(s.len(), |i: int| s[i] as int)
}

/// The widening view of a working block.
pub open spec fn ints_of_i128(s: Seq<i128>) -> Seq<int> {
    Seq::new(s.len(), |i: int| s[i] as int)
}

/// Truncating division, as machine division rounds: toward zero.
pub open spec fn spec_tdiv(n: int, d: int) -> int {
    if n >= 0 {
        n / d
    } else {
        -((-n) / d)
    }
}

/// A sample at scale `2^48` rounded to the nearest integer: add half
/// and truncate toward zero.
pub open spec fn spec_round48(v: int) -> int {
    spec_tdiv(v + 0x800000000000, 0x1000000000000)
}

/// Saturation into the 32-bit signed range.
pub open spec fn spec_clamp_i32(x: int) -> int {
    if x < i32::MIN {
        i32::MIN as int
    } else if x > i32::MAX {
        i32::MAX as int
    } else {
        x
    }
}

/// The eight coefficients of one 1-D slice, pre-scaled by the fixed
/// point `S` table and permuted into AAN order `(0,4,2,6,5,1,7,3)`.
pub open spec fn spec_aan_input(col: Seq<int>) -> Seq<int> {
    seq![
        col[0] * 1448,
        col[4] * 1448,
        col[2] * 1892,
        col[6] * 784,
        col[5] * 1138,
        col[1] * 2009,
        col[7] * 400,
        col[3] * 1703,
    ]
}

/// The AAN butterfly.  Terms multiplied by a fixed-point `M` constant
/// gain twelve fractional bits; the others are multiplied by `4096` so
/// that every output carries the same scale.
#[verifier::opaque]
pub open spec fn spec_dct_aan(s: Seq<int>) -> Seq<int> {
    let f4 = s[4] - s[7];
    let f5 = s[5] + s[6];
    let f6 = s[5] - s[6];
    let f7 = s[4] + s[7];
    let e2 = s[2] - s[3];
    let e3 = s[2] + s[3];
    let e5 = f5 - f7;
    let e7 = f5 + f7;
    let e8 = f4 + f6;
    let d0 = s[0] * 4096;
    let d1 = s[1] * 4096;
    let d2 = e2 * 5793;
    let d3 = e3 * 4096;
    let d4 = f4 * 4433;
    let d5 = e5 * 5793;
    let d6 = f6 * 10703;
    let d7 = e7 * 4096;
    let d8 = e8 * 3135;
    let c0 = d0 + d1;
    let c1 = d0 - d1;
    let c2 = d2 - d3;
    let c3 = d3;
    let c4 = d4 + d8;
    let c5 = d5 + d7;
    let c6 = d6 - d8;
    let c7 = d7;
    let c8 = c5 - c6;
    seq![c0 + c3, c1 + c2, c1 - c2, c0 - c3, c4 - c8, c8, c6 - c7, c7]
}

/// One full 1-D AAN pass over a slice: pre-scale and permute, the
/// butterfly, and the final add/subtract stage.  The result carries
/// `2^24` times the scale of its input.
#[verifier::opaque]
pub open spec fn spec_pass(col: Seq<int>) -> Seq<int> {
    let o = spec_dct_aan(spec_aan_input(col));
    seq![
        o[0] + o[7],
        o[1] + o[6],
        o[2] + o[5],
        o[3] + o[4],
        o[3] - o[4],
        o[2] - o[5],
        o[1] - o[6],
        o[0] - o[7],
    ]
}

/// Column `j` of a block in raster order.
pub open spec fn spec_column(b: Seq<int>, j: int) -> Seq<int> {
    Seq::new(8, |i: int| b[i * 8 + j])
}

/// Row `i` of a block in raster order.
pub open spec fn spec_row(b: Seq<int>, i: int) -> Seq<int> {
    Seq::new(8, |j: int| b[i * 8 + j])
}

/// The 2-D inverse DCT of a block of coefficients: the 1-D pass over
/// every column, then over every row of the intermediate block, then
/// rounding back to integer samples, saturated into the 32-bit range.
pub open spec fn spec_idct_block(b: Seq<int>) -> Seq<int> {
    let inter = Seq::new(64, |idx: int| spec_pass(spec_column(b, idx % 8))[idx / 8]);
    Seq::new(64, |idx: int| spec_clamp_i32(spec_round48(spec_pass(spec_row(inter, idx / 8))[idx % 8])))
}

/// The AAN butterfly on machine integers, with its amplification bound:
/// inputs within `m` give outputs within `2^19 m`.
fn dct_aan(input: [i128; 8], Ghost(m): Ghost<int>) -> (r: [i128; 8])
    requires
        0 <= m <= 0x100000000000000000000000000,
        forall|k: int| 0 <= k < 8 ==> -m <= #[trigger] input@[k] <= m,
    ensures
        forall|k: int|
            0 <= k < 8 ==> #[trigger] r@[k] == spec_dct_aan(ints_of_i128(input@))[k],
        forall|k: int| 0 <= k < 8 ==> -0x80000 * m <= #[trigger] r@[k] <= 0x80000 * m,
{
    let f4: i128 = input[4] - input[7];
    let f5: i128 = input[5] + input[6];
    let f6: i128 = input[5] - input[6];
    let f7: i128 = input[4] + input[7];
    let e2: i128 = input[2] - input[3];
    let e3: i128 = input[2] + input[3];
    let e5: i128 = f5 - f7;
    let e7: i128 = f5 + f7;
    let e8: i128 = f4 + f6;
    let d0: i128 = input[0] * 4096;
    let d1: i128 = input[1] * 4096;
    let d2: i128 = e2 * 5793;
    let d3: i128 = e3 * 4096;
    let d4: i128 = f4 * 4433;
    let d5: i128 = e5 * 5793;
    let d6: i128 = f6 * 10703;
    let d7: i128 = e7 * 4096;
    let d8: i128 = e8 * 3135;
    let c0: i128 = d0 + d1;
    let c1: i128 = d0 - d1;
    let c2: i128 = d2 - d3;
    let c3: i128 = d3;
    let c4: i128 = d4 + d8;
    let c5: i128 = d5 + d7;
    let c6: i128 = d6 - d8;
    let c7: i128 = d7;
    let c8: i128 = c5 - c6;
    let r: [i128; 8] = [c0 + c3, c1 + c2, c1 - c2, c0 - c3, c4 - c8, c8, c6 - c7, c7];
    proof {
        reveal(spec_dct_aan);
        assert(ints_of_i128(input@)[0] == input@[0]);
        assert(ints_of_i128(input@)[1] == input@[1]);
        assert(ints_of_i128(input@)[2] == input@[2]);
        assert(ints_of_i128(input@)[3] == input@[3]);
        assert(ints_of_i128(input@)[4] == input@[4]);
        assert(ints_of_i128(input@)[5] == input@[5]);
        assert(ints_of_i128(input@)[6] == input@[6]);
        assert(ints_of_i128(input@)[7] == input@[7]);
    }
    r
}

/// One 1-D pass on machine integers: `slice` holds the eight inputs;
/// the result is the pass output, `2^24` times larger in scale.
#[verifier::rlimit(100)]
#[verifier::spinoff_prover]
fn aan_pass(slice: [i128; 8], Ghost(m): Ghost<int>) -> (r: [i128; 8])
    requires
        0 <= m <= 0x4000000000000000000000,
        forall|k: int| 0 <= k < 8 ==> -m <= #[trigger] slice@[k] <= m,
    ensures
        forall|k: int|
            0 <= k < 8 ==> #[trigger] r@[k] == spec_pass(ints_of_i128(slice@))[k],
        forall|k: int|
            0 <= k < 8 ==> -0x100000000 * m <= #[trigger] r@[k] <= 0x100000000 * m,
{
    let a: [i128; 8] = [
        slice[0] * 1448,
        slice[4] * 1448,
        slice[2] * 1892,
        slice[6] * 784,
        slice[5] * 1138,
        slice[1] * 2009,
        slice[7] * 400,
        slice[3] * 1703,
    ];
    proof {
        reveal(spec_pass);
        assert(ints_of_i128(a@) =~= spec_aan_input(ints_of_i128(slice@)));
        assert(ints_of_i128(a@) == spec_aan_input(ints_of_i128(slice@)));
    }
    let o: [i128; 8] = dct_aan(a, Ghost(2048 * m));
    let r: [i128; 8] = [
        o[0] + o[7],
        o[1] + o[6],
        o[2] + o[5],
        o[3] + o[4],
        o[3] - o[4],
        o[2] - o[5],
        o[1] - o[6],
        o[0] - o[7],
    ];
    r
}

/// Rounds a sample at scale `2^48` to the nearest integer (half away
/// from zero via truncation) and saturates it into the 32-bit range.
fn round_and_clamp(v: i128) -> (r: i32)
    requires
        -0x100000000000000000000000000 <= v <= 0x100000000000000000000000000,
    ensures
        r == spec_clamp_i32(spec_round48(v as int)),
{
    let shifted: i128 = v + 0x800000000000;
    let q: i128 = shifted / 0x1000000000000;
    let rounded: i128 = q;
    if rounded < -0x80000000 {
        i32::MIN
    } else if rounded > 0x7FFFFFFF {
        i32::MAX
    } else {
        rounded as i32
    }
}


impl crate::mcu::MCUComponent {
    /// Replaces the block's 64 coefficients with their 2-D inverse DCT:
    /// the 1-D AAN pass over rows into a scratch block, the same pass
    /// over its columns, then rounding back to integer samples.
    #[verifier::rlimit(100)]
    #[verifier::spinoff_prover]
    pub fn inverse_dct(&mut self)
        ensures
            forall|k: int|
                0 <= k < 64 ==> final(self).0@[k] == spec_idct_block(ints_of_i32(old(self).0@))[k],
    {
        let ghost b0 = ints_of_i32(self.0@);
        let mut work: [i128; 64] = [0i128; 64];
        let mut idx: usize = 0;
        while idx < 64
            invariant
                idx <= 64,
                self == old(self),
                b0 == ints_of_i32(old(self).0@),
                work@.len() == 64,
                forall|t: int| 0 <= t < idx ==> #[trigger] work@[t] as int == b0[t],
            decreases 64 - idx,
        {
            work[idx] = self.0[idx] as i128;
            idx = idx + 1;
        }
        let ghost inter_spec = Seq::new(64, |i: int| spec_pass(spec_column(b0, i % 8))[i / 8]);
        let mut inter: [i128; 64] = [0i128; 64];
        let mut j: usize = 0;
        while j < 8
            invariant
                j <= 8,
                b0 == ints_of_i32(old(self).0@),
                inter_spec == Seq::new(64, |i: int| spec_pass(spec_column(b0, i % 8))[i / 8]),
                work@.len() == 64,
                inter@.len() == 64,
                forall|t: int| 0 <= t < 64 ==> #[trigger] work@[t] as int == b0[t],
                forall|t: int| 0 <= t < 64 ==> -0x80000000 <= #[trigger] b0[t] <= 0x80000000,
                forall|t: int|
                    0 <= t < 64 && t % 8 < j ==> #[trigger] inter@[t] as int == inter_spec[t],
                forall|t: int|
                    0 <= t < 64 && t % 8 < j ==> -0x8000000000000000 <= #[trigger] inter@[t]
                        <= 0x8000000000000000,
            decreases 8 - j,
        {
            let s: [i128; 8] = [
                work[j],
                work[8 + j],
                work[16 + j],
                work[24 + j],
                work[32 + j],
                work[40 + j],
                work[48 + j],
                work[56 + j],
            ];
            proof {
                assert(ints_of_i128(s@) =~= spec_column(b0, j as int));
            }
            let o: [i128; 8] = aan_pass(s, Ghost(0x80000000int));
            inter[j] = o[0];
            inter[8 + j] = o[1];
            inter[16 + j] = o[2];
            inter[24 + j] = o[3];
            inter[32 + j] = o[4];
            inter[40 + j] = o[5];
            inter[48 + j] = o[6];
            inter[56 + j] = o[7];
            j = j + 1;
        }
        proof {
            assert forall|t: int| 0 <= t < 64 implies #[trigger] inter@[t] as int
                == inter_spec[t] by {
                assert(t % 8 < 8);
            }
        }
        let mut res: [i32; 64] = [0i32; 64];
        let mut i: usize = 0;
        while i < 8
            invariant
                i <= 8,
                b0 == ints_of_i32(old(self).0@),
                inter_spec == Seq::new(64, |t: int| spec_pass(spec_column(b0, t % 8))[t / 8]),
                inter@.len() == 64,
                res@.len() == 64,
                forall|t: int| 0 <= t < 64 ==> #[trigger] inter@[t] as int == inter_spec[t],
                forall|t: int|
                    0 <= t < 64 ==> -0x8000000000000000 <= #[trigger] inter@[t]
                        <= 0x8000000000000000,
                forall|t: int|
                    0 <= t < 8 * i ==> #[trigger] res@[t] as int == spec_idct_block(b0)[t],
            decreases 8 - i,
        {
            let s: [i128; 8] = [
                inter[8 * i],
                inter[8 * i + 1],
                inter[8 * i + 2],
                inter[8 * i + 3],
                inter[8 * i + 4],
                inter[8 * i + 5],
                inter[8 * i + 6],
                inter[8 * i + 7],
            ];
            proof {
                assert(ints_of_i128(s@) =~= spec_row(inter_spec, i as int));
            }
            let o: [i128; 8] = aan_pass(s, Ghost(0x8000000000000000int));
            res[8 * i] = round_and_clamp(o[0]);
            res[8 * i + 1] = round_and_clamp(o[1]);
            res[8 * i + 2] = round_and_clamp(o[2]);
            res[8 * i + 3] = round_and_clamp(o[3]);
            res[8 * i + 4] = round_and_clamp(o[4]);
            res[8 * i + 5] = round_and_clamp(o[5]);
            res[8 * i + 6] = round_and_clamp(o[6]);
            res[8 * i + 7] = round_and_clamp(o[7]);
            proof {
                assert forall|c: int| 0 <= c < 8 implies #[trigger] (res@[8 * i + c] as int)
                    == spec_idct_block(b0)[8 * i + c] by {
                    assert((8 * i + c) / 8 == i && (8 * i + c) % 8 == c);
                    assert(res@[8 * i + c] == spec_clamp_i32(
                        spec_round48(spec_pass(spec_row(inter_spec, i as int))[c]),
                    ));
                }
            }
            i = i + 1;
        }
        self.0 = res;
    }
}

} // verus!
