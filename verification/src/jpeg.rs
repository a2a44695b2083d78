//! The decode pipeline: header, entropy decoding, dequantisation,
//! inverse DCT, and colour conversion, over every MCU in raster order.

use vstd::prelude::*;

use crate::bit_reader::{BitReader, ReaderState};
use crate::bmp::{spec_blocks_across, BMP};
use crate::header::{spec_gen_htable, spec_new_header, spec_parse_header, HeaderV, JPEGHeader};
use crate::idct::{ints_of_i32, spec_idct_block};
use crate::mcu::{
    spec_blue, spec_decode_block, spec_dequantize, spec_green, spec_red, MCU,
};
use crate::DecodeError;

verus! {

/// The view of one MCU: its three blocks.
pub open spec fn mcu_view(m: MCU) -> Seq<Seq<i32>> {
    Seq::new(3, |j: int| m.components@[j].0@)
}

/// The view of the whole raster.
pub open spec fn mcus_view(v: Seq<MCU>) -> Seq<Seq<Seq<i32>>> {
    Seq::new(v.len(), |i: int| mcu_view(v[i]))
}

/// An MCU of three zero blocks, as entropy decoding starts from.
pub open spec fn spec_zero_mcu() -> Seq<Seq<i32>> {
    Seq::new(3, |j: int| Seq::new(64, |k: int| 0i32))
}

/// Entropy-decodes the components of one MCU from component `j` on:
/// each component's block comes from its DC and AC tables and updates
/// its DC predictor.  A table id past three is malformed.
pub open spec fn spec_decode_mcu(
    data: Seq<u8>,
    st: ReaderState,
    header: HeaderV,
    mcu: Seq<Seq<i32>>,
    dcs: Seq<i32>,
    j: int,
) -> Result<(Seq<Seq<i32>>, Seq<i32>, ReaderState), DecodeError>
    decreases header.components_number - j,
{
    if j >= header.components_number {
        Ok((mcu, dcs, st))
    } else {
        let comp = header.color_components[j];
        if comp.huffman_ac_table_id > 3 || comp.huffman_dc_table_id > 3 || j >= 3 {
            Err(DecodeError::MalformedSegment)
        } else {
            let ac = header.ac_tables[comp.huffman_ac_table_id as int];
            let dc = header.dc_tables[comp.huffman_dc_table_id as int];
            match spec_decode_block(data, st, dc, ac, dcs[j], mcu[j]) {
                Err(e) => Err(e),
                Ok((st2, comp2, dcv)) => spec_decode_mcu(
                    data,
                    st2,
                    header,
                    mcu.update(j, comp2),
                    dcs.update(j, dcv),
                    j + 1,
                ),
            }
        }
    }
}

/// Entropy-decodes the MCUs from index `i` on, in raster order.  At
/// each restart boundary the DC predictors reset and the bit cursor
/// aligns; the restart markers themselves disappear inside the reader.
pub open spec fn spec_decode_mcus(
    data: Seq<u8>,
    st: ReaderState,
    header: HeaderV,
    mcus: Seq<Seq<Seq<i32>>>,
    dcs: Seq<i32>,
    i: int,
    total: int,
) -> Result<(Seq<Seq<Seq<i32>>>, ReaderState), DecodeError>
    decreases total - i,
{
    if i >= total {
        Ok((mcus, st))
    } else {
        let at_restart = header.restart_interval != 0 && i % (header.restart_interval as int) == 0;
        let dcs1 = if at_restart {
            seq![0i32, 0i32, 0i32]
        } else {
            dcs
        };
        let st1 = if at_restart {
            ReaderState { pos: st.pos, bit: 0, cur: st.cur }
        } else {
            st
        };
        if i < 0 || i >= mcus.len() {
            Err(DecodeError::MalformedSegment)
        } else {
            match spec_decode_mcu(data, st1, header, mcus[i], dcs1, 0) {
                Err(e) => Err(e),
                Ok((mcu2, dcs2, st2)) => spec_decode_mcus(
                    data,
                    st2,
                    header,
                    mcus.update(i, mcu2),
                    dcs2,
                    i + 1,
                    total,
                ),
            }
        }
    }
}

/// Dequantises the components of one MCU from component `j` on, each
/// against the quantisation table its descriptor names.
pub open spec fn spec_dequant_mcu(
    header: HeaderV,
    mcu: Seq<Seq<i32>>,
    j: int,
) -> Result<Seq<Seq<i32>>, DecodeError>
    decreases header.components_number - j,
{
    if j >= header.components_number {
        Ok(mcu)
    } else {
        let comp = header.color_components[j];
        if comp.quantization_table_id > 3 || j >= 3 {
            Err(DecodeError::MalformedSegment)
        } else {
            let q = header.quantization_tables[comp.quantization_table_id as int];
            spec_dequant_mcu(
                header,
                mcu.update(j, spec_dequantize(mcu[j], q.table)),
                j + 1,
            )
        }
    }
}

/// Dequantises the MCUs from index `i` on.
pub open spec fn spec_dequant_mcus(
    header: HeaderV,
    mcus: Seq<Seq<Seq<i32>>>,
    i: int,
) -> Result<Seq<Seq<Seq<i32>>>, DecodeError>
    decreases mcus.len() - i,
{
    if i < 0 || i >= mcus.len() {
        Ok(mcus)
    } else {
        match spec_dequant_mcu(header, mcus[i], 0) {
            Err(e) => Err(e),
            Ok(mcu2) => spec_dequant_mcus(header, mcus.update(i, mcu2), i + 1),
        }
    }
}

/// A decoded image: its header and its raster of MCUs.
#[derive(Clone, Debug)]
pub struct JPEG {
    pub header: JPEGHeader,
    pub mcus: Vec<MCU>,
}

/// Block counts stay small enough that a raster's MCU count fits every
/// machine size.
pub proof fn lemma_blocks_bound(d: int)
    requires
        0 <= d <= 65535,
    ensures
        0 <= spec_blocks_across(d) <= 8192,
{
    vstd::arithmetic::div_mod::lemma_div_is_ordered(d + 7, 65542, 8);
    vstd::arithmetic::div_mod::lemma_div_pos_is_pos(d + 7, 8);
    assert(65542int / 8 == 8192);
}

impl JPEG {
    /// Entropy-decodes every MCU of the scan: generates the canonical
    /// Huffman codes, sizes the raster, and runs Decode-Block per
    /// component per MCU, resetting the DC predictors and aligning the
    /// reader at each restart boundary.
    pub fn huffman_decode(&mut self, reader: &mut BitReader) -> (r: Result<(), DecodeError>)
        requires
            old(reader).wf(),
            old(self).header.tables_wf(),
            old(self).header.components_number <= 3,
        ensures
            final(reader).wf(),
            final(reader).bytes() == old(reader).bytes(),
            final(self).header == (JPEGHeader {
                ac_tables: final(self).header.ac_tables,
                dc_tables: final(self).header.dc_tables,
                ..old(self).header
            }),
            final(self).header.tables_wf(),
            forall|i: int|
                0 <= i < 4 ==> (#[trigger] final(self).header.ac_tables@[i])@
                    == crate::header::spec_gen_htable(old(self).header.ac_tables@[i]@),
            forall|i: int|
                0 <= i < 4 ==> (#[trigger] final(self).header.dc_tables@[i])@
                    == crate::header::spec_gen_htable(old(self).header.dc_tables@[i]@),
            ({
                let total = spec_blocks_across(old(self).header.width as int) * spec_blocks_across(
                    old(self).header.height as int,
                );
                match spec_decode_mcus(
                    old(reader).bytes(),
                    old(reader).st(),
                    final(self).header.hview(),
                    Seq::new(total as nat, |i: int| spec_zero_mcu()),
                    seq![0i32, 0i32, 0i32],
                    0,
                    total,
                ) {
                    Ok((mcusv, st2)) => r == Ok::<(), DecodeError>(()) && final(self).mcus@.len()
                        == total && mcus_view(final(self).mcus@) == mcusv && final(reader).st()
                        == st2,
                    Err(e) => r == Err::<(), DecodeError>(e),
                }
            }),
    {
        let ghost data = reader.bytes();
        proof {
            lemma_blocks_bound(self.header.width as int);
            lemma_blocks_bound(self.header.height as int);
        }
        let mcu_height: usize = self.header.mcu_height();
        let mcu_width: usize = self.header.mcu_width();
        proof {
            assert(mcu_width * mcu_height <= 8192 * 8192) by (nonlinear_arith)
                requires
                    0 <= mcu_width <= 8192 && 0 <= mcu_height <= 8192,
            ;
        }
        let total: usize = mcu_width * mcu_height;
        self.header.generate_tables_codes();
        let ghost header2 = self.header;
        let mut mcus: Vec<MCU> = Vec::new();
        while mcus.len() < total
            invariant
                mcus@.len() <= total,
                forall|i: int| 0 <= i < mcus@.len() ==> mcu_view(#[trigger] mcus@[i]) == spec_zero_mcu(),
            decreases total - mcus@.len(),
        {
            let m = MCU::new();
            proof {
                assert(mcu_view(m) =~~= spec_zero_mcu());
            }
            mcus.push(m);
        }
        self.mcus = mcus;
        proof {
            assert(mcus_view(self.mcus@) =~~= Seq::new(total as nat, |i: int| spec_zero_mcu()));
        }
        let ghost target = spec_decode_mcus(
            data,
            old(reader).st(),
            header2.hview(),
            mcus_view(self.mcus@),
            seq![0i32, 0i32, 0i32],
            0,
            total as int,
        );
        let mut previous_dcs: [i32; 3] = [0; 3];
        proof {
            assert(previous_dcs@ =~= seq![0i32, 0i32, 0i32]);
        }
        let restart_interval: usize = self.header.restart_interval() as usize;
        let components_number: u8 = self.header.components_number();
        let mut i: usize = 0;
        while i < total
            invariant
                i <= total,
                reader.wf(),
                reader.bytes() == data,
                data == old(reader).bytes(),
                self.header == header2,
                header2.tables_wf(),
                header2 == (JPEGHeader {
                    ac_tables: header2.ac_tables,
                    dc_tables: header2.dc_tables,
                    ..old(self).header
                }),
                forall|t: int|
                    0 <= t < 4 ==> (#[trigger] header2.ac_tables@[t])@
                        == crate::header::spec_gen_htable(old(self).header.ac_tables@[t]@),
                forall|t: int|
                    0 <= t < 4 ==> (#[trigger] header2.dc_tables@[t])@
                        == crate::header::spec_gen_htable(old(self).header.dc_tables@[t]@),
                total as int == spec_blocks_across(old(self).header.width as int)
                    * spec_blocks_across(old(self).header.height as int),
                restart_interval == self.header.restart_interval,
                components_number == self.header.components_number,
                components_number <= 3,
                self.mcus@.len() == total,
                previous_dcs@.len() == 3,
                target == spec_decode_mcus(
                    data,
                    old(reader).st(),
                    header2.hview(),
                    Seq::new(total as nat, |t: int| spec_zero_mcu()),
                    seq![0i32, 0i32, 0i32],
                    0,
                    total as int,
                ),
                spec_decode_mcus(
                    data,
                    reader.st(),
                    header2.hview(),
                    mcus_view(self.mcus@),
                    previous_dcs@,
                    i as int,
                    total as int,
                ) == target,
            decreases total - i,
        {
            if restart_interval != 0 && i % restart_interval == 0 {
                previous_dcs[0] = 0;
                previous_dcs[1] = 0;
                previous_dcs[2] = 0;
                reader.align();
                proof {
                    assert(previous_dcs@ =~= seq![0i32, 0i32, 0i32]);
                }
            }
            let ghost snap = mcus_view(self.mcus@);
            let ghost st_mcu = reader.st();
            let ghost dcs_mcu = previous_dcs@;
            let ghost target_mcu = spec_decode_mcu(
                data,
                st_mcu,
                header2.hview(),
                snap[i as int],
                dcs_mcu,
                0,
            );
            let mut j: u8 = 0;
            while j < components_number
                invariant
                    j <= components_number,
                    components_number <= 3,
                    i < total,
                    reader.wf(),
                    reader.bytes() == data,
                    data == old(reader).bytes(),
                    self.header == header2,
                    header2.tables_wf(),
                    header2 == (JPEGHeader {
                        ac_tables: header2.ac_tables,
                        dc_tables: header2.dc_tables,
                        ..old(self).header
                    }),
                    forall|t: int|
                        0 <= t < 4 ==> (#[trigger] header2.ac_tables@[t])@
                            == crate::header::spec_gen_htable(old(self).header.ac_tables@[t]@),
                    forall|t: int|
                        0 <= t < 4 ==> (#[trigger] header2.dc_tables@[t])@
                            == crate::header::spec_gen_htable(old(self).header.dc_tables@[t]@),
                    total as int == spec_blocks_across(old(self).header.width as int)
                        * spec_blocks_across(old(self).header.height as int),
                    target == spec_decode_mcus(
                        data,
                        old(reader).st(),
                        header2.hview(),
                        Seq::new(total as nat, |t: int| spec_zero_mcu()),
                        seq![0i32, 0i32, 0i32],
                        0,
                        total as int,
                    ),
                    components_number == self.header.components_number,
                    self.mcus@.len() == total,
                    previous_dcs@.len() == 3,
                    snap.len() == total,
                    mcus_view(self.mcus@) == snap.update(i as int, mcu_view(self.mcus@[i as int])),
                    spec_decode_mcu(
                        data,
                        reader.st(),
                        header2.hview(),
                        mcu_view(self.mcus@[i as int]),
                        previous_dcs@,
                        j as int,
                    ) == target_mcu,
                    (target_mcu matches Ok((m2, d2, s2)) ==> spec_decode_mcus(
                        data,
                        s2,
                        header2.hview(),
                        snap.update(i as int, m2),
                        d2,
                        i as int + 1,
                        total as int,
                    ) == target),
                    (target_mcu matches Err(e) ==> target == Err::<
                        (Seq<Seq<Seq<i32>>>, ReaderState),
                        DecodeError,
                    >(e)),
                decreases components_number - j,
            {
                let comp = self.header.color_components[j as usize];
                let ac_id: u8 = comp.huffman_ac_table_id;
                let dc_id: u8 = comp.huffman_dc_table_id;
                if ac_id > 3 || dc_id > 3 {
                    return Err(DecodeError::MalformedSegment);
                }
                let ac = self.header.ac_tables[ac_id as usize];
                let dc = self.header.dc_tables[dc_id as usize];
                proof {
                    assert(header2.ac_tables@[ac_id as int].offsets_wf());
                    assert(header2.dc_tables@[dc_id as int].offsets_wf());
                }
                let mut pd: i32 = previous_dcs[j as usize];
                let ghost mcus_prev = self.mcus@;
                let mut m: MCU = self.mcus[i];
                let ghost m_prev = mcu_view(m);
                match m.decode(j as usize, reader, &mut pd, &ac, &dc) {
                    Ok(()) => (),
                    Err(e) => {
                        return Err(e);
                    },
                }
                self.mcus[i] = m;
                previous_dcs[j as usize] = pd;
                proof {
                    let comp2 = m.components@[j as int].0@;
                    assert(mcu_view(m) =~= m_prev.update(j as int, comp2));
                    assert forall|t: int| 0 <= t < total implies #[trigger] mcus_view(
                        self.mcus@,
                    )[t] == snap.update(i as int, mcu_view(self.mcus@[i as int]))[t] by {
                        if t != i {
                            assert(self.mcus@[t] == mcus_prev[t]);
                            assert(mcus_view(mcus_prev)[t] == snap[t]);
                        }
                    }
                    assert(mcus_view(self.mcus@) =~= snap.update(
                        i as int,
                        mcu_view(self.mcus@[i as int]),
                    ));
                }
                j = j + 1;
            }
            i = i + 1;
        }
        Ok(())
    }
}


/// The inverse DCT over one MCU's first `n` components.
pub open spec fn spec_idct_mcu(mcu: Seq<Seq<i32>>, n: int) -> Seq<Seq<i32>> {
    Seq::new(
        3,
        |j: int|
            if j < n {
                Seq::new(64, |k: int| spec_idct_block(ints_of_i32(mcu[j]))[k] as i32)
            } else {
                mcu[j]
            },
    )
}

/// The inverse DCT over every MCU of a raster.
pub open spec fn spec_idct_mcus(mcus: Seq<Seq<Seq<i32>>>, n: int) -> Seq<Seq<Seq<i32>>> {
    Seq::new(mcus.len(), |i: int| spec_idct_mcu(mcus[i], n))
}

/// Colour conversion over one MCU: component 0 becomes red, 1 green,
/// 2 blue, each clamped to the 8-bit sample range.
pub open spec fn spec_color_mcu(mcu: Seq<Seq<i32>>) -> Seq<Seq<i32>> {
    Seq::new(
        3,
        |j: int|
            Seq::new(
                64,
                |k: int|
                    {
                        let y = mcu[0][k] as int;
                        let cb = mcu[1][k] as int;
                        let cr = mcu[2][k] as int;
                        if j == 0 {
                            spec_red(y, cr) as i32
                        } else if j == 1 {
                            spec_green(y, cb, cr) as i32
                        } else {
                            spec_blue(y, cb) as i32
                        }
                    },
            ),
    )
}

/// Colour conversion over every MCU of a raster.
pub open spec fn spec_color_mcus(mcus: Seq<Seq<Seq<i32>>>) -> Seq<Seq<Seq<i32>>> {
    Seq::new(mcus.len(), |i: int| spec_color_mcu(mcus[i]))
}

/// A header after canonical code generation over all eight Huffman
/// slots.
pub open spec fn spec_gen_header_view(h: HeaderV) -> HeaderV {
    HeaderV {
        ac_tables: Seq::new(4, |i: int| spec_gen_htable(h.ac_tables[i])),
        dc_tables: Seq::new(4, |i: int| spec_gen_htable(h.dc_tables[i])),
        ..h
    }
}

/// The whole decode of a byte stream: the header, canonical code
/// generation, entropy decoding of every MCU, dequantisation, the
/// inverse DCT, and colour conversion.  Any stage's failure is the
/// decode's failure.
pub open spec fn spec_decode_pipeline(data: Seq<u8>) -> Result<
    (HeaderV, Seq<Seq<Seq<i32>>>),
    DecodeError,
> {
    match spec_parse_header(data, ReaderState { pos: 0, bit: 0, cur: 0u8 }, spec_new_header()) {
        Err(e) => Err(e),
        Ok((hv, st2)) => {
            let h2 = spec_gen_header_view(hv);
            let total = spec_blocks_across(h2.width as int) * spec_blocks_across(h2.height as int);
            match spec_decode_mcus(
                data,
                st2,
                h2,
                Seq::new(total as nat, |i: int| spec_zero_mcu()),
                seq![0i32, 0i32, 0i32],
                0,
                total,
            ) {
                Err(e) => Err(e),
                Ok((m1, _st3)) => match spec_dequant_mcus(h2, m1, 0) {
                    Err(e) => Err(e),
                    Ok(m2) => Ok(
                        (h2, spec_color_mcus(spec_idct_mcus(m2, h2.components_number as int))),
                    ),
                },
            }
        },
    }
}

impl JPEG {
    /// Dequantises every MCU: each component's block is multiplied
    /// pointwise by the quantisation table its descriptor names.
    pub fn dequantize(&mut self) -> (r: Result<(), DecodeError>)
        requires
            old(self).header.components_number <= 3,
        ensures
            final(self).header == old(self).header,
            match spec_dequant_mcus(old(self).header.hview(), mcus_view(old(self).mcus@), 0) {
                Ok(v) => r == Ok::<(), DecodeError>(()) && mcus_view(final(self).mcus@) == v
                    && final(self).mcus@.len() == old(self).mcus@.len(),
                Err(e) => r == Err::<(), DecodeError>(e),
            },
    {
        let ghost hv = self.header.hview();
        let ghost target = spec_dequant_mcus(hv, mcus_view(self.mcus@), 0);
        let total: usize = self.mcus.len();
        let components_number: u8 = self.header.components_number();
        let mut i: usize = 0;
        while i < total
            invariant
                i <= total,
                self.header == old(self).header,
                hv == self.header.hview(),
                components_number == self.header.components_number,
                components_number <= 3,
                self.mcus@.len() == total,
                old(self).mcus@.len() == total,
                target == spec_dequant_mcus(hv, mcus_view(old(self).mcus@), 0),
                spec_dequant_mcus(hv, mcus_view(self.mcus@), i as int) == target,
            decreases total - i,
        {
            let ghost snap = mcus_view(self.mcus@);
            let ghost target_mcu = spec_dequant_mcu(hv, snap[i as int], 0);
            let mut j: u8 = 0;
            while j < components_number
                invariant
                    j <= components_number,
                    components_number <= 3,
                    i < total,
                    self.header == old(self).header,
                    hv == self.header.hview(),
                    components_number == self.header.components_number,
                    self.mcus@.len() == total,
                    snap.len() == total,
                    old(self).mcus@.len() == total,
                    target == spec_dequant_mcus(hv, mcus_view(old(self).mcus@), 0),
                    mcus_view(self.mcus@) == snap.update(i as int, mcu_view(self.mcus@[i as int])),
                    spec_dequant_mcu(hv, mcu_view(self.mcus@[i as int]), j as int) == target_mcu,
                    (target_mcu matches Ok(m2) ==> spec_dequant_mcus(
                        hv,
                        snap.update(i as int, m2),
                        i as int + 1,
                    ) == target),
                    (target_mcu matches Err(e) ==> target == Err::<Seq<Seq<Seq<i32>>>, DecodeError>(
                        e,
                    )),
            decreases components_number - j,
            {
                let comp = self.header.color_components[j as usize];
                let table_id: u8 = comp.quantization_table_id;
                if table_id > 3 {
                    return Err(DecodeError::MalformedSegment);
                }
                let table = self.header.quantization_tables[table_id as usize];
                let ghost mcus_prev = self.mcus@;
                let mut m: MCU = self.mcus[i];
                let ghost m_prev = mcu_view(m);
                let mut c = m.components[j as usize];
                c.dequantize(&table);
                m.components[j as usize] = c;
                self.mcus[i] = m;
                proof {
                    assert(mcu_view(m) =~= m_prev.update(j as int, c.0@));
                    assert forall|t: int| 0 <= t < total implies #[trigger] mcus_view(
                        self.mcus@,
                    )[t] == snap.update(i as int, mcu_view(self.mcus@[i as int]))[t] by {
                        if t != i {
                            assert(self.mcus@[t] == mcus_prev[t]);
                            assert(mcus_view(mcus_prev)[t] == snap[t]);
                        }
                    }
                    assert(mcus_view(self.mcus@) =~= snap.update(
                        i as int,
                        mcu_view(self.mcus@[i as int]),
                    ));
                }
                j = j + 1;
            }
            i = i + 1;
        }
        Ok(())
    }

    /// Applies the inverse DCT to every declared component of every
    /// MCU, turning dequantised coefficients into spatial samples.
    pub fn inverse_dct(&mut self)
        requires
            old(self).header.components_number <= 3,
        ensures
            final(self).header == old(self).header,
            final(self).mcus@.len() == old(self).mcus@.len(),
            mcus_view(final(self).mcus@) == spec_idct_mcus(
                mcus_view(old(self).mcus@),
                old(self).header.components_number as int,
            ),
    {
        let total: usize = self.mcus.len();
        let components_number: u8 = self.header.components_number();
        let ghost n = components_number as int;
        let mut i: usize = 0;
        while i < total
            invariant
                i <= total,
                self.header == old(self).header,
                components_number == self.header.components_number,
                components_number <= 3,
                n == components_number as int,
                self.mcus@.len() == total,
                old(self).mcus@.len() == total,
                forall|t: int|
                    0 <= t < i ==> mcu_view(#[trigger] self.mcus@[t]) == spec_idct_mcu(
                        mcu_view(old(self).mcus@[t]),
                        n,
                    ),
                forall|t: int| i <= t < total ==> #[trigger] self.mcus@[t] == old(self).mcus@[t],
            decreases total - i,
        {
            let mut m: MCU = self.mcus[i];
            let ghost m0 = mcu_view(m);
            let mut j: u8 = 0;
            while j < components_number
                invariant
                    j <= components_number,
                    components_number <= 3,
                    n == components_number as int,
                    m0 == mcu_view(old(self).mcus@[i as int]),
                    forall|jj: int|
                        0 <= jj < j ==> (#[trigger] m.components@[jj]).0@ == spec_idct_mcu(
                            m0,
                            n,
                        )[jj],
                    forall|jj: int|
                        j <= jj < 3 ==> #[trigger] m.components@[jj] == old(
                            self,
                        ).mcus@[i as int].components@[jj],
                decreases components_number - j,
            {
                let mut c = m.components[j as usize];
                c.inverse_dct();
                m.components[j as usize] = c;
                proof {
                    assert(c.0@ =~= Seq::new(
                        64,
                        |k: int| spec_idct_block(ints_of_i32(m0[j as int]))[k] as i32,
                    ));
                }
                j = j + 1;
            }
            proof {
                assert(mcu_view(m) =~= spec_idct_mcu(m0, n));
            }
            self.mcus[i] = m;
            i = i + 1;
        }
        proof {
            assert(mcus_view(self.mcus@) =~= spec_idct_mcus(mcus_view(old(self).mcus@), n));
        }
    }

    /// Converts every MCU from level-shifted YCbCr to RGB: after this,
    /// component 0 holds red, 1 green, 2 blue, each in `[0, 255]`.
    pub fn ycbcr_to_rgb(&mut self)
        ensures
            final(self).header == old(self).header,
            final(self).mcus@.len() == old(self).mcus@.len(),
            mcus_view(final(self).mcus@) == spec_color_mcus(mcus_view(old(self).mcus@)),
            forall|i: int, j: int, k: int|
                0 <= i < final(self).mcus@.len() && 0 <= j < 3 && 0 <= k < 64 ==> 0 <= #[trigger] (
                final(self).mcus@[i].components@[j].0@[k]) <= 255,
    {
        let total: usize = self.mcus.len();
        let mut i: usize = 0;
        while i < total
            invariant
                i <= total,
                self.header == old(self).header,
                self.mcus@.len() == total,
                old(self).mcus@.len() == total,
                forall|t: int|
                    0 <= t < i ==> mcu_view(#[trigger] self.mcus@[t]) == spec_color_mcu(
                        mcu_view(old(self).mcus@[t]),
                    ),
                forall|t: int, j: int, k: int|
                    0 <= t < i && 0 <= j < 3 && 0 <= k < 64 ==> 0 <= #[trigger] (
                    self.mcus@[t].components@[j].0@[k]) <= 255,
                forall|t: int| i <= t < total ==> #[trigger] self.mcus@[t] == old(self).mcus@[t],
            decreases total - i,
        {
            let mut m: MCU = self.mcus[i];
            let ghost m0 = mcu_view(m);
            m.ycbcr_to_rgb();
            proof {
                assert forall|k: int| 0 <= k < 64 implies #[trigger] m.components@[0].0@[k]
                    == spec_color_mcu(m0)[0][k] by {}
                assert forall|k: int| 0 <= k < 64 implies #[trigger] m.components@[1].0@[k]
                    == spec_color_mcu(m0)[1][k] by {
                    assert(m.components@[0].0@[k] == crate::mcu::spec_red(
                        m0[0][k] as int,
                        m0[2][k] as int,
                    ));
                }
                assert forall|k: int| 0 <= k < 64 implies #[trigger] m.components@[2].0@[k]
                    == spec_color_mcu(m0)[2][k] by {
                    assert(m.components@[0].0@[k] == crate::mcu::spec_red(
                        m0[0][k] as int,
                        m0[2][k] as int,
                    ));
                }
                assert(m.components@[0].0@ =~= spec_color_mcu(m0)[0]);
                assert(m.components@[1].0@ =~= spec_color_mcu(m0)[1]);
                assert(m.components@[2].0@ =~= spec_color_mcu(m0)[2]);
                assert(mcu_view(m) =~= spec_color_mcu(m0));
            }
            self.mcus[i] = m;
            i = i + 1;
        }
        proof {
            assert(mcus_view(self.mcus@) =~= spec_color_mcus(mcus_view(old(self).mcus@)));
        }
    }

    /// Decodes a whole baseline JPEG byte stream into a raster of RGB
    /// blocks.
    pub fn from_bytes(data: Vec<u8>) -> (r: Result<JPEG, DecodeError>)
        ensures
            match spec_decode_pipeline(data@) {
                Ok((hv, mcusv)) => r is Ok && r->Ok_0.header.hview() == hv && mcus_view(
                    r->Ok_0.mcus@,
                ) == mcusv,
                Err(e) => r == Err::<JPEG, DecodeError>(e),
            },
    {
        let ghost bytes = data@;
        let mut reader = BitReader::new(data);
        let header: JPEGHeader = match JPEGHeader::from_binary(&mut reader) {
            Ok(h) => h,
            Err(e) => {
                return Err(e);
            },
        };
        let mut jpeg = JPEG { header, mcus: Vec::new() };
        let decode_result = jpeg.huffman_decode(&mut reader);
        proof {
            let hv = spec_parse_header(
                bytes,
                ReaderState { pos: 0, bit: 0, cur: 0u8 },
                spec_new_header(),
            )->Ok_0.0;
            assert(jpeg.header.hview() =~~= spec_gen_header_view(hv));
        }
        match decode_result {
            Ok(()) => (),
            Err(e) => {
                return Err(e);
            },
        }
        match jpeg.dequantize() {
            Ok(()) => (),
            Err(e) => {
                return Err(e);
            },
        }
        jpeg.inverse_dct();
        jpeg.ycbcr_to_rgb();
        Ok(jpeg)
    }

    /// The decoded raster as a BMP, ready to serialise.
    pub fn to_bmp(self) -> (r: BMP)
        requires
            14 + 12 + 3 * self.header.width * self.header.height + (self.header.width as int % 4)
                * self.header.height <= u32::MAX,
        ensures
            r.header.width == self.header.width,
            r.header.height == self.header.height,
            r.header.bmp_size == 14 + 12 + 3 * self.header.width * self.header.height + (
            self.header.width as int % 4) * self.header.height,
            r.header.header_size == 12,
            r.header.components_number == 1,
            r.header.starting_offset == 0x1A,
            r.header.bits_per_pixel == 24,
            r.mcus@ == self.mcus@,
    {
        let bmp_header = self.header.to_bmp();
        BMP::new(bmp_header, self.mcus)
    }
}


/// Entropy decoding of one MCU reads the tables and components of the
/// header, never its restart interval.
pub proof fn lemma_decode_mcu_ignores_restart(
    data: Seq<u8>,
    st: ReaderState,
    h: HeaderV,
    h0: HeaderV,
    mcu: Seq<Seq<i32>>,
    dcs: Seq<i32>,
    j: int,
)
    requires
        h0 == (HeaderV { restart_interval: h0.restart_interval, ..h }),
    ensures
        spec_decode_mcu(data, st, h, mcu, dcs, j) == spec_decode_mcu(data, st, h0, mcu, dcs, j),
    decreases h.components_number - j,
{
    if j < h.components_number {
        let comp = h.color_components[j];
        if !(comp.huffman_ac_table_id > 3 || comp.huffman_dc_table_id > 3 || j >= 3) {
            let ac = h.ac_tables[comp.huffman_ac_table_id as int];
            let dc = h.dc_tables[comp.huffman_dc_table_id as int];
            match spec_decode_block(data, st, dc, ac, dcs[j], mcu[j]) {
                Err(_) => {},
                Ok((st2, comp2, dcv)) => {
                    lemma_decode_mcu_ignores_restart(
                        data,
                        st2,
                        h,
                        h0,
                        mcu.update(j, comp2),
                        dcs.update(j, dcv),
                        j + 1,
                    );
                },
            }
        }
    }
}

/// Away from every restart boundary, a restart interval changes
/// nothing: decoding under `h` and under the same header without an
/// interval take identical steps.
pub proof fn lemma_decode_between_boundaries(
    data: Seq<u8>,
    st: ReaderState,
    h: HeaderV,
    h0: HeaderV,
    mcus: Seq<Seq<Seq<i32>>>,
    dcs: Seq<i32>,
    k: int,
    stop: int,
)
    requires
        h0 == (HeaderV { restart_interval: 0u16, ..h }),
        h.restart_interval != 0,
        forall|m: int| k <= m < stop ==> #[trigger] (m % (h.restart_interval as int)) != 0,
    ensures
        spec_decode_mcus(data, st, h, mcus, dcs, k, stop) == spec_decode_mcus(
            data,
            st,
            h0,
            mcus,
            dcs,
            k,
            stop,
        ),
    decreases stop - k,
{
    if k < stop {
        if !(k < 0 || k >= mcus.len()) {
            lemma_decode_mcu_ignores_restart(data, st, h, h0, mcus[k], dcs, 0);
            match spec_decode_mcu(data, st, h0, mcus[k], dcs, 0) {
                Err(_) => {},
                Ok((mcu2, dcs2, st2)) => {
                    lemma_decode_between_boundaries(
                        data,
                        st2,
                        h,
                        h0,
                        mcus.update(k, mcu2),
                        dcs2,
                        k + 1,
                        stop,
                    );
                },
            }
        }
    }
}

/// Restart boundaries partition the MCUs into runs that are
/// independent for DC prediction only: starting a run at a boundary
/// with the DC predictors already zero and the bit cursor already
/// aligned, decoding the run under the restart interval equals
/// decoding it under none.
pub proof fn lemma_restart_run_independent(
    data: Seq<u8>,
    st: ReaderState,
    h: HeaderV,
    h0: HeaderV,
    mcus: Seq<Seq<Seq<i32>>>,
    i: int,
    stop: int,
)
    requires
        h0 == (HeaderV { restart_interval: 0u16, ..h }),
        h.restart_interval != 0,
        0 <= i,
        i % (h.restart_interval as int) == 0,
        i <= stop <= i + h.restart_interval,
        st.bit == 0,
    ensures
        spec_decode_mcus(data, st, h, mcus, seq![0i32, 0i32, 0i32], i, stop) == spec_decode_mcus(
            data,
            st,
            h0,
            mcus,
            seq![0i32, 0i32, 0i32],
            i,
            stop,
        ),
{
    let r = h.restart_interval as int;
    if i < stop {
        assert(ReaderState { pos: st.pos, bit: 0, cur: st.cur } == st);
        if !(i < 0 || i >= mcus.len()) {
            lemma_decode_mcu_ignores_restart(data, st, h, h0, mcus[i], seq![0i32, 0i32, 0i32], 0);
            match spec_decode_mcu(data, st, h0, mcus[i], seq![0i32, 0i32, 0i32], 0) {
                Err(_) => {},
                Ok((mcu2, dcs2, st2)) => {
                    assert forall|m: int| i + 1 <= m < stop implies #[trigger] (m % r) != 0 by {
                        let d = m - i;
                        vstd::arithmetic::div_mod::lemma_add_mod_noop(i, d, r);
                        vstd::arithmetic::div_mod::lemma_small_mod(d as nat, r as nat);
                        vstd::arithmetic::div_mod::lemma_small_mod(0nat, r as nat);
                    }
                    lemma_decode_between_boundaries(
                        data,
                        st2,
                        h,
                        h0,
                        mcus.update(i, mcu2),
                        dcs2,
                        i + 1,
                        stop,
                    );
                },
            }
        }
    }
}

} // verus!
