//! The JPEG header parser: every segment from SOI up to and including
//! SOS, populating the quantisation tables, the Huffman tables, the
//! component descriptors and the frame parameters.

use vstd::prelude::*;

use crate::bit_reader::{
    spec_read_byte, spec_read_word, BitReader, ReaderState,
};
use crate::bmp::BMPHeader;
use crate::color_component::{spec_component_from_binary, ColorComponent};
use crate::huffman::{
    spec_gen_codes, spec_htable_from_binary, spec_new_htable, HTableV, HuffmanTable,
};
use crate::quantization_table::{spec_dqt_read, QTableV, QuantizationTable};
use crate::segment::{spec_from_marker, SegmentType};
use crate::DecodeError;

verus! {

/// The mathematical view of a parsed header.
#[verifier::ext_equal]
pub struct HeaderV {
    pub quantization_tables: Seq<QTableV>,
    pub ac_tables: Seq<HTableV>,
    pub dc_tables: Seq<HTableV>,
    pub color_components: Seq<ColorComponent>,
    pub height: u16,
    pub width: u16,
    pub components_number: u8,
    pub zero_based: bool,
    pub start_of_selection: u8,
    pub end_of_selection: u8,
    pub successive_approximation_high: u8,
    pub successive_approximation_low: u8,
    pub restart_interval: u16,
}

/// Skips `n` payload bytes.
pub open spec fn spec_skip_bytes(data: Seq<u8>, st: ReaderState, n: int) -> Result<
    ReaderState,
    DecodeError,
>
    decreases n,
{
    if n <= 0 {
        Ok(st)
    } else {
        match spec_read_byte(data, st) {
            Err(e) => Err(e),
            Ok((st1, _b)) => spec_skip_bytes(data, st1, n - 1),
        }
    }
}

/// A skipped segment (APPn, COM, DNL, DHP, EXP, JPGn): a length word of
/// at least two, then `length - 2` ignored bytes.
pub open spec fn spec_read_comment(data: Seq<u8>, st: ReaderState) -> Result<
    ReaderState,
    DecodeError,
> {
    match spec_read_word(data, st) {
        Err(e) => Err(e),
        Ok((st1, length)) => if length < 2 {
            Err(DecodeError::MalformedSegment)
        } else {
            spec_skip_bytes(data, st1, length - 2)
        },
    }
}

/// The DQT payload loop: packed id/precision bytes and 64-entry tables
/// until the declared length is used up exactly.
pub open spec fn spec_dqt_loop(
    data: Seq<u8>,
    st: ReaderState,
    tables: Seq<QTableV>,
    remaining: int,
) -> Result<(Seq<QTableV>, ReaderState), DecodeError>
    decreases (if remaining <= 0 { 0int } else { remaining }),
{
    if remaining <= 0 {
        if remaining == 0 {
            Ok((tables, st))
        } else {
            Err(DecodeError::MalformedSegment)
        }
    } else {
        match spec_read_byte(data, st) {
            Err(e) => Err(e),
            Ok((st1, infos)) => {
                let tid = infos & 0x0F;
                let es = (infos >> 4u8) & 0x0F;
                if tid > 3 || es > 1 {
                    Err(DecodeError::MalformedSegment)
                } else {
                    match spec_dqt_read(data, st1, es, 0, Seq::<u16>::new(64, |i: int| 0u16)) {
                        Err(e) => Err(e),
                        Ok((tbl, st2)) => spec_dqt_loop(
                            data,
                            st2,
                            tables.update(tid as int, QTableV { table: tbl, table_id: tid }),
                            remaining - 1 - (if es == 0 { 64int } else { 128int }),
                        ),
                    }
                }
            },
        }
    }
}

/// A DQT segment: its length word, then the payload loop.
pub open spec fn spec_dqt_segment(data: Seq<u8>, st: ReaderState, h: HeaderV) -> Result<
    (HeaderV, ReaderState),
    DecodeError,
> {
    match spec_read_word(data, st) {
        Err(e) => Err(e),
        Ok((st1, length)) => match spec_dqt_loop(data, st1, h.quantization_tables, length - 2) {
            Err(e) => Err(e),
            Ok((qts, st2)) => Ok((HeaderV { quantization_tables: qts, ..h }, st2)),
        },
    }
}

/// A DHT table declaration's running symbol count stays within the
/// 162-symbol alphabet.
pub proof fn lemma_dht_counts_bounds(
    data: Seq<u8>,
    st: ReaderState,
    i: int,
    offs: Seq<u8>,
    count: int,
)
    requires
        0 <= count <= 162,
        crate::huffman::spec_dht_counts(data, st, i, offs, count) is Ok,
    ensures
        0 <= crate::huffman::spec_dht_counts(data, st, i, offs, count)->Ok_0.1 <= 162,
    decreases 17 - i,
{
    if i < 17 {
        match spec_read_byte(data, st) {
            Ok((st2, c)) => {
                if !(count + c > 162) {
                    lemma_dht_counts_bounds(
                        data,
                        st2,
                        i + 1,
                        offs.update(i, (count + c) as u8),
                        count + c,
                    );
                }
            },
            Err(_) => {},
        }
    }
}

/// The DHT payload loop: packed id/kind bytes and one table declaration
/// each, until the declared length is used up exactly.
pub open spec fn spec_dht_loop(
    data: Seq<u8>,
    st: ReaderState,
    ac_tables: Seq<HTableV>,
    dc_tables: Seq<HTableV>,
    remaining: int,
) -> Result<(Seq<HTableV>, Seq<HTableV>, ReaderState), DecodeError>
    decreases (if remaining <= 0 { 0int } else { remaining })
        via spec_dht_loop_decreases
{
    if remaining <= 0 {
        if remaining == 0 {
            Ok((ac_tables, dc_tables, st))
        } else {
            Err(DecodeError::MalformedSegment)
        }
    } else {
        match spec_read_byte(data, st) {
            Err(e) => Err(e),
            Ok((st1, infos)) => {
                let tid = infos & 0x0F;
                let is_ac = ((infos >> 4u8) & 0x0F) == 1;
                if tid > 3 {
                    Err(DecodeError::MalformedSegment)
                } else {
                    let slot = if is_ac {
                        ac_tables[tid as int]
                    } else {
                        dc_tables[tid as int]
                    };
                    match spec_htable_from_binary(data, st1, slot, tid, is_ac) {
                        Err(e) => Err(e),
                        Ok((ht, len, st2)) => if is_ac {
                            spec_dht_loop(
                                data,
                                st2,
                                ac_tables.update(tid as int, ht),
                                dc_tables,
                                remaining - len,
                            )
                        } else {
                            spec_dht_loop(
                                data,
                                st2,
                                ac_tables,
                                dc_tables.update(tid as int, ht),
                                remaining - len,
                            )
                        },
                    }
                }
            },
        }
    }
}

#[via_fn]
proof fn spec_dht_loop_decreases(
    data: Seq<u8>,
    st: ReaderState,
    ac_tables: Seq<HTableV>,
    dc_tables: Seq<HTableV>,
    remaining: int,
) {
    if remaining > 0 {
        match spec_read_byte(data, st) {
            Ok((st1, infos)) => {
                let tid = infos & 0x0F;
                let is_ac = ((infos >> 4u8) & 0x0F) == 1;
                if !(tid > 3) {
                    let slot = if is_ac {
                        ac_tables[tid as int]
                    } else {
                        dc_tables[tid as int]
                    };
                    match crate::huffman::spec_dht_counts(data, st1, 1, slot.offsets, 0) {
                        Ok((offs, n, stc)) => {
                            lemma_dht_counts_bounds(data, st1, 1, slot.offsets, 0);
                        },
                        Err(_) => {},
                    }
                }
            },
            Err(_) => {},
        }
    }
}

/// A DHT segment: its length word, then the payload loop.
pub open spec fn spec_dht_segment(data: Seq<u8>, st: ReaderState, h: HeaderV) -> Result<
    (HeaderV, ReaderState),
    DecodeError,
> {
    match spec_read_word(data, st) {
        Err(e) => Err(e),
        Ok((st1, length)) => match spec_dht_loop(data, st1, h.ac_tables, h.dc_tables, length - 2) {
            Err(e) => Err(e),
            Ok((acs, dcs, st2)) => Ok((HeaderV { ac_tables: acs, dc_tables: dcs, ..h }, st2)),
        },
    }
}

/// A DRI segment: length exactly four, then the restart interval.
pub open spec fn spec_dri_segment(data: Seq<u8>, st: ReaderState, h: HeaderV) -> Result<
    (HeaderV, ReaderState),
    DecodeError,
> {
    match spec_read_word(data, st) {
        Err(e) => Err(e),
        Ok((st1, length)) => if length != 4 {
            Err(DecodeError::MalformedSegment)
        } else {
            match spec_read_word(data, st1) {
                Err(e) => Err(e),
                Ok((st2, ri)) => Ok((HeaderV { restart_interval: ri, ..h }, st2)),
            }
        },
    }
}

/// The SOF0 component loop: an id byte (with the zero-based adjustment)
/// and the component's sampling and table parameters, once per declared
/// component.
pub open spec fn spec_sof0_components(
    data: Seq<u8>,
    st: ReaderState,
    comps: Seq<ColorComponent>,
    i: int,
    n: int,
    zero_based: bool,
) -> Result<(Seq<ColorComponent>, bool, ReaderState), DecodeError>
    decreases n - i,
{
    if i >= n {
        Ok((comps, zero_based, st))
    } else {
        match spec_read_byte(data, st) {
            Err(e) => Err(e),
            Ok((st1, id)) => if id > 3 {
                Err(DecodeError::MalformedSegment)
            } else {
                let zb = if id == 0 && i == 0 {
                    true
                } else {
                    zero_based
                };
                let id2 = if zb {
                    id + 1
                } else {
                    id as int
                };
                if id2 == 0 || id2 > n {
                    Err(DecodeError::MalformedSegment)
                } else {
                    match spec_component_from_binary(data, st1, comps[id2 - 1]) {
                        Err(e) => Err(e),
                        Ok((c, st2)) => spec_sof0_components(
                            data,
                            st2,
                            comps.update(id2 - 1, c),
                            i + 1,
                            n,
                            zb,
                        ),
                    }
                }
            },
        }
    }
}

/// A SOF0 segment: precision eight, non-zero height and width, one or
/// three components, and their descriptors, with the length used up
/// exactly.
pub open spec fn spec_sof0_segment(data: Seq<u8>, st: ReaderState, h: HeaderV) -> Result<
    (HeaderV, ReaderState),
    DecodeError,
> {
    match spec_read_word(data, st) {
        Err(e) => Err(e),
        Ok((st1, length)) => match spec_read_byte(data, st1) {
            Err(e) => Err(e),
            Ok((st2, precision)) => if precision != 8 {
                Err(DecodeError::UnsupportedFeature)
            } else {
                match spec_read_word(data, st2) {
                    Err(e) => Err(e),
                    Ok((st3, height)) => if height == 0 {
                        Err(DecodeError::MalformedSegment)
                    } else {
                        match spec_read_word(data, st3) {
                            Err(e) => Err(e),
                            Ok((st4, width)) => if width == 0 {
                                Err(DecodeError::MalformedSegment)
                            } else {
                                match spec_read_byte(data, st4) {
                                    Err(e) => Err(e),
                                    Ok((st5, n)) => if n != 1 && n != 3 {
                                        Err(DecodeError::UnsupportedFeature)
                                    } else {
                                        match spec_sof0_components(
                                            data,
                                            st5,
                                            h.color_components,
                                            0,
                                            n as int,
                                            false,
                                        ) {
                                            Err(e) => Err(e),
                                            Ok((comps, zb, st6)) => if length - 2 - 6 - 3 * n
                                                != 0 {
                                                Err(DecodeError::MalformedSegment)
                                            } else {
                                                Ok(
                                                    (
                                                        HeaderV {
                                                            color_components: comps,
                                                            height,
                                                            width,
                                                            components_number: n,
                                                            zero_based: zb,
                                                            ..h
                                                        },
                                                        st6,
                                                    ),
                                                )
                                            },
                                        }
                                    },
                                }
                            },
                        }
                    },
                }
            },
        },
    }
}

/// The SOS component loop: an id byte (zero-based adjustment applies)
/// and the packed DC/AC table assignment, once per scan component; each
/// referenced component must have been declared by the frame and not
/// yet by this scan.
pub open spec fn spec_sos_components(
    data: Seq<u8>,
    st: ReaderState,
    comps: Seq<ColorComponent>,
    i: int,
    n_scan: int,
    n_frame: int,
    zero_based: bool,
) -> Result<(Seq<ColorComponent>, ReaderState), DecodeError>
    decreases n_scan - i,
{
    if i >= n_scan {
        Ok((comps, st))
    } else {
        match spec_read_byte(data, st) {
            Err(e) => Err(e),
            Ok((st1, id)) => {
                let id2 = if zero_based {
                    id + 1
                } else {
                    id as int
                };
                if id2 == 0 || id2 > n_frame {
                    Err(DecodeError::MalformedSegment)
                } else {
                    let c = comps[id2 - 1];
                    if !c.used_frame || c.used_scan {
                        Err(DecodeError::MalformedSegment)
                    } else {
                        match spec_read_byte(data, st1) {
                            Err(e) => Err(e),
                            Ok((st2, ids)) => {
                                let ac = ids & 0x0F;
                                let dc = (ids >> 4u8) & 0x0F;
                                if ac > 3 || dc > 3 {
                                    Err(DecodeError::MalformedSegment)
                                } else {
                                    spec_sos_components(
                                        data,
                                        st2,
                                        comps.update(
                                            id2 - 1,
                                            ColorComponent {
                                                huffman_ac_table_id: ac,
                                                huffman_dc_table_id: dc,
                                                used_scan: true,
                                                ..c
                                            },
                                        ),
                                        i + 1,
                                        n_scan,
                                        n_frame,
                                        zero_based,
                                    )
                                }
                            },
                        }
                    }
                }
            },
        }
    }
}

/// All scan-usage flags cleared, as the start of a scan does.
pub open spec fn spec_clear_scan(comps: Seq<ColorComponent>) -> Seq<ColorComponent> {
    Seq::new(comps.len(), |i: int| ColorComponent { used_scan: false, ..comps[i] })
}

/// The tail of a SOS segment after its component list: the three
/// spectral-selection bytes, which baseline fixes at 0, 63, 0, and the
/// length accounting.
pub open spec fn spec_sos_tail(
    data: Seq<u8>,
    st3: ReaderState,
    comps: Seq<ColorComponent>,
    h: HeaderV,
    length: u16,
    n_scan: u8,
) -> Result<(HeaderV, ReaderState), DecodeError> {
    match spec_read_byte(data, st3) {
        Err(e) => Err(e),
        Ok((st4, ss)) => if ss != 0 {
            Err(DecodeError::UnsupportedFeature)
        } else {
            match spec_read_byte(data, st4) {
                Err(e) => Err(e),
                Ok((st5, es)) => if es != 63 {
                    Err(DecodeError::UnsupportedFeature)
                } else {
                    match spec_read_byte(data, st5) {
                        Err(e) => Err(e),
                        Ok((st6, sa)) => if sa != 0 {
                            Err(DecodeError::UnsupportedFeature)
                        } else if length - 2 - 1 - 2 * n_scan - 3 != 0 {
                            Err(DecodeError::MalformedSegment)
                        } else {
                            Ok(
                                (
                                    HeaderV {
                                        color_components: comps,
                                        start_of_selection: ss,
                                        end_of_selection: es,
                                        successive_approximation_high: (sa >> 4u8) & 0x0F,
                                        successive_approximation_low: sa & 0x0F,
                                        ..h
                                    },
                                    st6,
                                ),
                            )
                        },
                    }
                },
            }
        },
    }
}

/// A SOS segment: the scan's components and table assignments, then
/// the spectral-selection fields, which baseline fixes at 0, 63, 0, 0.
pub open spec fn spec_sos_segment(data: Seq<u8>, st: ReaderState, h: HeaderV) -> Result<
    (HeaderV, ReaderState),
    DecodeError,
> {
    if h.components_number == 0 {
        Err(DecodeError::MalformedSegment)
    } else {
        match spec_read_word(data, st) {
            Err(e) => Err(e),
            Ok((st1, length)) => match spec_read_byte(data, st1) {
                Err(e) => Err(e),
                Ok((st2, n_scan)) => match spec_sos_components(
                    data,
                    st2,
                    spec_clear_scan(h.color_components),
                    0,
                    n_scan as int,
                    h.components_number as int,
                    h.zero_based,
                ) {
                    Err(e) => Err(e),
                    Ok((comps, st3)) => spec_sos_tail(data, st3, comps, h, length, n_scan),
                },
            },
        }
    }
}


/// Reads only move the cursor forward, never past the end.
pub proof fn lemma_skip_bytes_pos(data: Seq<u8>, st: ReaderState, n: int)
    requires
        st.pos <= data.len(),
        spec_skip_bytes(data, st, n) is Ok,
    ensures
        st.pos <= spec_skip_bytes(data, st, n)->Ok_0.pos <= data.len(),
    decreases n,
{
    if n > 0 {
        match spec_read_byte(data, st) {
            Ok((st1, _b)) => {
                lemma_skip_bytes_pos(data, st1, n - 1);
            },
            Err(_) => {},
        }
    }
}

pub proof fn lemma_dqt_read_pos(
    data: Seq<u8>,
    st: ReaderState,
    es: u8,
    k: int,
    tbl: Seq<u16>,
)
    requires
        st.pos <= data.len(),
        spec_dqt_read(data, st, es, k, tbl) is Ok,
    ensures
        st.pos <= spec_dqt_read(data, st, es, k, tbl)->Ok_0.1.pos <= data.len(),
    decreases 64 - k,
{
    if k < 64 {
        if es == 0 {
            match spec_read_byte(data, st) {
                Ok((st2, b)) => {
                    lemma_dqt_read_pos(data, st2, es, k + 1, tbl.update(crate::zigzag_spec(k), b as u16));
                },
                Err(_) => {},
            }
        } else {
            match spec_read_word(data, st) {
                Ok((st2, w)) => {
                    lemma_dqt_read_pos(data, st2, es, k + 1, tbl.update(crate::zigzag_spec(k), w));
                },
                Err(_) => {},
            }
        }
    }
}

pub proof fn lemma_dqt_loop_pos(
    data: Seq<u8>,
    st: ReaderState,
    tables: Seq<QTableV>,
    remaining: int,
)
    requires
        st.pos <= data.len(),
        spec_dqt_loop(data, st, tables, remaining) is Ok,
    ensures
        st.pos <= spec_dqt_loop(data, st, tables, remaining)->Ok_0.1.pos <= data.len(),
    decreases (if remaining <= 0 { 0int } else { remaining }),
{
    if remaining > 0 {
        match spec_read_byte(data, st) {
            Ok((st1, infos)) => {
                let tid = infos & 0x0F;
                let es = (infos >> 4u8) & 0x0F;
                if !(tid > 3 || es > 1) {
                    match spec_dqt_read(data, st1, es, 0, Seq::<u16>::new(64, |i: int| 0u16)) {
                        Ok((tbl, st2)) => {
                            lemma_dqt_read_pos(data, st1, es, 0, Seq::<u16>::new(64, |i: int| 0u16));
                            lemma_dqt_loop_pos(
                                data,
                                st2,
                                tables.update(tid as int, QTableV { table: tbl, table_id: tid }),
                                remaining - 1 - (if es == 0 { 64int } else { 128int }),
                            );
                        },
                        Err(_) => {},
                    }
                }
            },
            Err(_) => {},
        }
    }
}

pub proof fn lemma_dht_counts_pos(
    data: Seq<u8>,
    st: ReaderState,
    i: int,
    offs: Seq<u8>,
    count: int,
)
    requires
        st.pos <= data.len(),
        crate::huffman::spec_dht_counts(data, st, i, offs, count) is Ok,
    ensures
        st.pos <= crate::huffman::spec_dht_counts(data, st, i, offs, count)->Ok_0.2.pos
            <= data.len(),
    decreases 17 - i,
{
    if i < 17 {
        match spec_read_byte(data, st) {
            Ok((st2, c)) => {
                if !(count + c > 162) {
                    lemma_dht_counts_pos(
                        data,
                        st2,
                        i + 1,
                        offs.update(i, (count + c) as u8),
                        count + c,
                    );
                }
            },
            Err(_) => {},
        }
    }
}

pub proof fn lemma_dht_symbols_pos(
    data: Seq<u8>,
    st: ReaderState,
    j: int,
    n: int,
    syms: Seq<u8>,
)
    requires
        st.pos <= data.len(),
        crate::huffman::spec_dht_symbols(data, st, j, n, syms) is Ok,
    ensures
        st.pos <= crate::huffman::spec_dht_symbols(data, st, j, n, syms)->Ok_0.1.pos <= data.len(),
    decreases n - j,
{
    if j < n {
        match spec_read_byte(data, st) {
            Ok((st2, b)) => {
                lemma_dht_symbols_pos(data, st2, j + 1, n, syms.update(j, b));
            },
            Err(_) => {},
        }
    }
}

pub proof fn lemma_dht_loop_pos(
    data: Seq<u8>,
    st: ReaderState,
    ac_tables: Seq<HTableV>,
    dc_tables: Seq<HTableV>,
    remaining: int,
)
    requires
        st.pos <= data.len(),
        spec_dht_loop(data, st, ac_tables, dc_tables, remaining) is Ok,
    ensures
        st.pos <= spec_dht_loop(data, st, ac_tables, dc_tables, remaining)->Ok_0.2.pos
            <= data.len(),
    decreases (if remaining <= 0 { 0int } else { remaining }),
{
    if remaining > 0 {
        match spec_read_byte(data, st) {
            Ok((st1, infos)) => {
                let tid = infos & 0x0F;
                let is_ac = ((infos >> 4u8) & 0x0F) == 1;
                if !(tid > 3) {
                    let slot = if is_ac {
                        ac_tables[tid as int]
                    } else {
                        dc_tables[tid as int]
                    };
                    match spec_htable_from_binary(data, st1, slot, tid, is_ac) {
                        Ok((ht, len, st2)) => {
                            match crate::huffman::spec_dht_counts(data, st1, 1, slot.offsets, 0) {
                                Ok((offs, n, stc)) => {
                                    lemma_dht_counts_bounds(data, st1, 1, slot.offsets, 0);
                                    lemma_dht_counts_pos(data, st1, 1, slot.offsets, 0);
                                    lemma_dht_symbols_pos(
                                        data,
                                        stc,
                                        0,
                                        n,
                                        slot.symbols.update(0, 0u8),
                                    );
                                },
                                Err(_) => {},
                            }
                            if is_ac {
                                lemma_dht_loop_pos(
                                    data,
                                    st2,
                                    ac_tables.update(tid as int, ht),
                                    dc_tables,
                                    remaining - len,
                                );
                            } else {
                                lemma_dht_loop_pos(
                                    data,
                                    st2,
                                    ac_tables,
                                    dc_tables.update(tid as int, ht),
                                    remaining - len,
                                );
                            }
                        },
                        Err(_) => {},
                    }
                }
            },
            Err(_) => {},
        }
    }
}

pub proof fn lemma_sof0_components_pos(
    data: Seq<u8>,
    st: ReaderState,
    comps: Seq<ColorComponent>,
    i: int,
    n: int,
    zero_based: bool,
)
    requires
        st.pos <= data.len(),
        spec_sof0_components(data, st, comps, i, n, zero_based) is Ok,
    ensures
        st.pos <= spec_sof0_components(data, st, comps, i, n, zero_based)->Ok_0.2.pos
            <= data.len(),
    decreases n - i,
{
    if i < n {
        match spec_read_byte(data, st) {
            Ok((st1, id)) => {
                if !(id > 3) {
                    let zb = if id == 0 && i == 0 {
                        true
                    } else {
                        zero_based
                    };
                    let id2 = if zb {
                        id + 1
                    } else {
                        id as int
                    };
                    if !(id2 == 0 || id2 > n) {
                        match spec_component_from_binary(data, st1, comps[id2 - 1]) {
                            Ok((c, st2)) => {
                                lemma_sof0_components_pos(
                                    data,
                                    st2,
                                    comps.update(id2 - 1, c),
                                    i + 1,
                                    n,
                                    zb,
                                );
                            },
                            Err(_) => {},
                        }
                    }
                }
            },
            Err(_) => {},
        }
    }
}

pub proof fn lemma_sos_components_pos(
    data: Seq<u8>,
    st: ReaderState,
    comps: Seq<ColorComponent>,
    i: int,
    n_scan: int,
    n_frame: int,
    zero_based: bool,
)
    requires
        st.pos <= data.len(),
        spec_sos_components(data, st, comps, i, n_scan, n_frame, zero_based) is Ok,
    ensures
        st.pos <= spec_sos_components(data, st, comps, i, n_scan, n_frame, zero_based)->Ok_0.1.pos
            <= data.len(),
    decreases n_scan - i,
{
    if i < n_scan {
        match spec_read_byte(data, st) {
            Ok((st1, id)) => {
                let id2 = if zero_based {
                    id + 1
                } else {
                    id as int
                };
                if !(id2 == 0 || id2 > n_frame) {
                    let c = comps[id2 - 1];
                    if !(!c.used_frame || c.used_scan) {
                        match spec_read_byte(data, st1) {
                            Ok((st2, ids)) => {
                                let ac = ids & 0x0F;
                                let dc = (ids >> 4u8) & 0x0F;
                                if !(ac > 3 || dc > 3) {
                                    lemma_sos_components_pos(
                                        data,
                                        st2,
                                        comps.update(
                                            id2 - 1,
                                            ColorComponent {
                                                huffman_ac_table_id: ac,
                                                huffman_dc_table_id: dc,
                                                used_scan: true,
                                                ..c
                                            },
                                        ),
                                        i + 1,
                                        n_scan,
                                        n_frame,
                                        zero_based,
                                    );
                                }
                            },
                            Err(_) => {},
                        }
                    }
                }
            },
            Err(_) => {},
        }
    }
}

/// Every segment parser moves the cursor forward, never past the end.
pub proof fn lemma_segment_pos(data: Seq<u8>, st: ReaderState, h: HeaderV)
    requires
        st.pos <= data.len(),
    ensures
        spec_read_comment(data, st) is Ok ==> st.pos
            <= spec_read_comment(data, st)->Ok_0.pos <= data.len(),
        spec_dqt_segment(data, st, h) is Ok ==> st.pos
            <= spec_dqt_segment(data, st, h)->Ok_0.1.pos <= data.len(),
        spec_dht_segment(data, st, h) is Ok ==> st.pos
            <= spec_dht_segment(data, st, h)->Ok_0.1.pos <= data.len(),
        spec_dri_segment(data, st, h) is Ok ==> st.pos
            <= spec_dri_segment(data, st, h)->Ok_0.1.pos <= data.len(),
        spec_sof0_segment(data, st, h) is Ok ==> st.pos
            <= spec_sof0_segment(data, st, h)->Ok_0.1.pos <= data.len(),
        spec_sos_segment(data, st, h) is Ok ==> st.pos
            <= spec_sos_segment(data, st, h)->Ok_0.1.pos <= data.len(),
{
    if spec_read_comment(data, st) is Ok {
        match spec_read_word(data, st) {
            Ok((st1, length)) => {
                lemma_skip_bytes_pos(data, st1, length - 2);
            },
            Err(_) => {},
        }
    }
    if spec_dqt_segment(data, st, h) is Ok {
        match spec_read_word(data, st) {
            Ok((st1, length)) => {
                lemma_dqt_loop_pos(data, st1, h.quantization_tables, length - 2);
            },
            Err(_) => {},
        }
    }
    if spec_dht_segment(data, st, h) is Ok {
        match spec_read_word(data, st) {
            Ok((st1, length)) => {
                lemma_dht_loop_pos(data, st1, h.ac_tables, h.dc_tables, length - 2);
            },
            Err(_) => {},
        }
    }
    if spec_sof0_segment(data, st, h) is Ok {
        match spec_read_word(data, st) {
            Ok((st1, length)) => {
                match spec_read_byte(data, st1) {
                    Ok((st2, precision)) => {
                        match spec_read_word(data, st2) {
                            Ok((st3, height)) => {
                                match spec_read_word(data, st3) {
                                    Ok((st4, width)) => {
                                        match spec_read_byte(data, st4) {
                                            Ok((st5, n)) => {
                                                if n == 1 || n == 3 {
                                                    lemma_sof0_components_pos(
                                                        data,
                                                        st5,
                                                        h.color_components,
                                                        0,
                                                        n as int,
                                                        false,
                                                    );
                                                }
                                            },
                                            Err(_) => {},
                                        }
                                    },
                                    Err(_) => {},
                                }
                            },
                            Err(_) => {},
                        }
                    },
                    Err(_) => {},
                }
            },
            Err(_) => {},
        }
    }
    if spec_sos_segment(data, st, h) is Ok {
        if h.components_number != 0 {
            match spec_read_word(data, st) {
                Ok((st1, length)) => {
                    match spec_read_byte(data, st1) {
                        Ok((st2, n_scan)) => {
                            lemma_sos_components_pos(
                                data,
                                st2,
                                spec_clear_scan(h.color_components),
                                0,
                                n_scan as int,
                                h.components_number as int,
                                h.zero_based,
                            );
                        },
                        Err(_) => {},
                    }
                },
                Err(_) => {},
            }
        }
    }
}

/// The header state machine from one marker on: each segment updates
/// the header, SOS ends the header phase, and out-of-place or unknown
/// markers fail as the baseline repertoire directs.
pub open spec fn spec_header_loop(data: Seq<u8>, st: ReaderState, h: HeaderV) -> Result<
    (HeaderV, ReaderState),
    DecodeError,
>
    decreases data.len() - st.pos,
        via spec_header_loop_decreases
{
    match spec_read_word(data, st) {
        Err(e) => Err(e),
        Ok((st1, marker)) => match spec_from_marker(marker) {
            None => Err(DecodeError::UnknownMarker),
            Some(seg) => match seg {
                SegmentType::APPN | SegmentType::COM | SegmentType::DHP | SegmentType::DNL
                    | SegmentType::EXP | SegmentType::JPGN => match spec_read_comment(data, st1) {
                    Err(e) => Err(e),
                    Ok(st2) => spec_header_loop(data, st2, h),
                },
                SegmentType::DHT => match spec_dht_segment(data, st1, h) {
                    Err(e) => Err(e),
                    Ok((h2, st2)) => spec_header_loop(data, st2, h2),
                },
                SegmentType::DQT => match spec_dqt_segment(data, st1, h) {
                    Err(e) => Err(e),
                    Ok((h2, st2)) => spec_header_loop(data, st2, h2),
                },
                SegmentType::DRI => match spec_dri_segment(data, st1, h) {
                    Err(e) => Err(e),
                    Ok((h2, st2)) => spec_header_loop(data, st2, h2),
                },
                SegmentType::SOF0 => match spec_sof0_segment(data, st1, h) {
                    Err(e) => Err(e),
                    Ok((h2, st2)) => spec_header_loop(data, st2, h2),
                },
                SegmentType::SOS => spec_sos_segment(data, st1, h),
                SegmentType::TEM => spec_header_loop(data, st1, h),
                SegmentType::DAC => Err(DecodeError::UnsupportedFeature),
                SegmentType::EOI => Err(DecodeError::MalformedSegment),
                SegmentType::RSTN => Err(DecodeError::MalformedSegment),
                SegmentType::SOI => Err(DecodeError::UnsupportedFeature),
            },
        },
    }
}

#[via_fn]
proof fn spec_header_loop_decreases(data: Seq<u8>, st: ReaderState, h: HeaderV) {
    match spec_read_word(data, st) {
        Err(_e) => {},
        Ok((st1, marker)) => {
            assert(st1.pos == st.pos + 2 <= data.len());
            lemma_segment_pos(data, st1, h);
        },
    }
}

/// A whole header: the stream must open with SOI, and the segment
/// machine runs until SOS hands over to the entropy decoder.
pub open spec fn spec_parse_header(data: Seq<u8>, st: ReaderState, h: HeaderV) -> Result<
    (HeaderV, ReaderState),
    DecodeError,
> {
    match spec_read_word(data, st) {
        Err(e) => Err(e),
        Ok((st1, marker)) => if spec_from_marker(marker) != Some(SegmentType::SOI) {
            Err(DecodeError::BadMagic)
        } else {
            spec_header_loop(data, st1, h)
        },
    }
}


/// The parsed header: the table sets, the component descriptors, and
/// the frame and scan parameters.
#[derive(Clone, Copy, Debug)]
pub struct JPEGHeader {
    pub quantization_tables: [QuantizationTable; 4],
    pub ac_tables: [HuffmanTable; 4],
    pub dc_tables: [HuffmanTable; 4],
    pub color_components: [ColorComponent; 3],
    pub height: u16,
    pub width: u16,
    pub components_number: u8,
    pub zero_based: bool,
    pub start_of_selection: u8,
    pub end_of_selection: u8,
    pub successive_approximation_high: u8,
    pub successive_approximation_low: u8,
    pub restart_interval: u16,
}

impl JPEGHeader {
    /// The header's mathematical view.
    pub open spec fn hview(self) -> HeaderV {
        HeaderV {
            quantization_tables: Seq::new(4, |i: int| self.quantization_tables@[i]@),
            ac_tables: Seq::new(4, |i: int| self.ac_tables@[i]@),
            dc_tables: Seq::new(4, |i: int| self.dc_tables@[i]@),
            color_components: self.color_components@,
            height: self.height,
            width: self.width,
            components_number: self.components_number,
            zero_based: self.zero_based,
            start_of_selection: self.start_of_selection,
            end_of_selection: self.end_of_selection,
            successive_approximation_high: self.successive_approximation_high,
            successive_approximation_low: self.successive_approximation_low,
            restart_interval: self.restart_interval,
        }
    }

    /// Every Huffman slot keeps a zero base offset and running totals
    /// inside the alphabet, so a later DHT segment can redeclare it.
    pub open spec fn tables_wf(self) -> bool {
        (forall|i: int|
            0 <= i < 4 ==> (#[trigger] self.ac_tables@[i]).offsets@[0] == 0
                && self.ac_tables@[i].offsets_wf()) && (forall|i: int|
            0 <= i < 4 ==> (#[trigger] self.dc_tables@[i]).offsets@[0] == 0
                && self.dc_tables@[i].offsets_wf())
    }

    /// The state before any segment has been read.
    pub fn new() -> (r: JPEGHeader)
        ensures
            r.tables_wf(),
            r.height == 0 && r.width == 0 && r.components_number == 0 && r.zero_based == false
                && r.restart_interval == 0,
            forall|i: int| 0 <= i < 3 ==> r.color_components@[i] == ColorComponent::new_spec(),
            r.hview() == spec_new_header(),
    {
        let q = QuantizationTable::new();
        let t = HuffmanTable::new();
        let c = ColorComponent::new();
        let r = JPEGHeader {
            quantization_tables: [q, q, q, q],
            ac_tables: [t, t, t, t],
            dc_tables: [t, t, t, t],
            color_components: [c, c, c],
            height: 0,
            width: 0,
            components_number: 0,
            zero_based: false,
            start_of_selection: 0,
            end_of_selection: 0,
            successive_approximation_high: 0,
            successive_approximation_low: 0,
            restart_interval: 0,
        };
        proof {
            assert(r.hview() =~~= spec_new_header());
        }
        r
    }

    /// Reads and discards a skippable segment (APPn, COM, DNL, DHP,
    /// EXP, JPGn): its length word, then that many payload bytes.
    pub fn read_comment(&mut self, reader: &mut BitReader) -> (r: Result<(), DecodeError>)
        requires
            old(reader).wf(),
        ensures
            final(reader).wf(),
            final(reader).bytes() == old(reader).bytes(),
            *final(self) == *old(self),
            match spec_read_comment(old(reader).bytes(), old(reader).st()) {
                Ok(st2) => r == Ok::<(), DecodeError>(()) && final(reader).st() == st2,
                Err(e) => r == Err::<(), DecodeError>(e),
            },
    {
        let ghost data = reader.bytes();
        let length: u16 = match reader.read_word() {
            Ok(w) => w,
            Err(e) => {
                return Err(e);
            },
        };
        if length < 2 {
            return Err(DecodeError::MalformedSegment);
        }
        let ghost st1 = reader.st();
        let mut count: usize = length as usize - 2;
        while count > 0
            invariant
                reader.wf(),
                reader.bytes() == data,
                data == old(reader).bytes(),
                self == old(self),
                spec_read_comment(data, old(reader).st()) == spec_skip_bytes(data, st1, length - 2),
                spec_skip_bytes(data, st1, length - 2) == spec_skip_bytes(
                    data,
                    reader.st(),
                    count as int,
                ),
            decreases count,
        {
            match reader.read_byte() {
                Ok(_b) => (),
                Err(e) => {
                    return Err(e);
                },
            }
            count = count - 1;
        }
        Ok(())
    }

    /// Reads a DQT segment: each table in it lands in the slot its id
    /// names, de-zig-zagged, and the declared length must be used up
    /// exactly.
    pub fn read_segment_dqt(&mut self, reader: &mut BitReader) -> (r: Result<(), DecodeError>)
        requires
            old(reader).wf(),
        ensures
            final(reader).wf(),
            final(reader).bytes() == old(reader).bytes(),
            final(self).ac_tables@ == old(self).ac_tables@,
            final(self).dc_tables@ == old(self).dc_tables@,
            match spec_dqt_segment(old(reader).bytes(), old(reader).st(), old(self).hview()) {
                Ok((h2, st2)) => r == Ok::<(), DecodeError>(()) && final(self).hview() == h2
                    && final(reader).st() == st2,
                Err(e) => r == Err::<(), DecodeError>(e),
            },
    {
        let ghost data = reader.bytes();
        let ghost h0 = self.hview();
        let length: u16 = match reader.read_word() {
            Ok(w) => w,
            Err(e) => {
                return Err(e);
            },
        };
        let ghost st1 = reader.st();
        let ghost target = spec_dqt_loop(data, st1, h0.quantization_tables, length - 2);
        let mut count: i32 = length as i32 - 2;
        while count > 0
            invariant
                -200 <= count <= 65535,
                reader.wf(),
                reader.bytes() == data,
                data == old(reader).bytes(),
                self.ac_tables@ == old(self).ac_tables@,
                self.dc_tables@ == old(self).dc_tables@,
                self.color_components@ == old(self).color_components@,
                self.height == old(self).height,
                self.width == old(self).width,
                self.components_number == old(self).components_number,
                self.zero_based == old(self).zero_based,
                self.start_of_selection == old(self).start_of_selection,
                self.end_of_selection == old(self).end_of_selection,
                self.successive_approximation_high == old(self).successive_approximation_high,
                self.successive_approximation_low == old(self).successive_approximation_low,
                self.restart_interval == old(self).restart_interval,
                h0 == old(self).hview(),
                target == spec_dqt_loop(data, st1, h0.quantization_tables, length - 2),
                spec_dqt_segment(data, old(reader).st(), h0) == (match target {
                    Ok((qts, st2)) => Ok::<(HeaderV, ReaderState), DecodeError>(
                        (HeaderV { quantization_tables: qts, ..h0 }, st2),
                    ),
                    Err(e) => Err::<(HeaderV, ReaderState), DecodeError>(e),
                }),
                spec_dqt_loop(
                    data,
                    reader.st(),
                    self.hview().quantization_tables,
                    count as int,
                ) == target,
            decreases (if count <= 0 { 0int } else { count as int }),
        {
            let ghost prev = self.hview().quantization_tables;
            let infos: u8 = match reader.read_byte() {
                Ok(b) => b,
                Err(e) => {
                    return Err(e);
                },
            };
            count = count - 1;
            let table_id: u8 = infos & 0x0F;
            let element_size: u8 = (infos >> 4u8) & 0x0F;
            if table_id > 3 || element_size > 1 {
                return Err(DecodeError::MalformedSegment);
            }
            let mut t: QuantizationTable = self.quantization_tables[table_id as usize];
            let len: usize = match t.from_binary(reader, table_id, element_size) {
                Ok(n) => n,
                Err(e) => {
                    return Err(e);
                },
            };
            self.quantization_tables[table_id as usize] = t;
            proof {
                assert(self.hview().quantization_tables =~= prev.update(
                    table_id as int,
                    QTableV { table: t.table@, table_id },
                ));
            }
            count = count - len as i32;
        }
        if count != 0 {
            return Err(DecodeError::MalformedSegment);
        }
        proof {
            assert(self.hview() =~= (HeaderV {
                quantization_tables: self.hview().quantization_tables,
                ..h0
            }));
        }
        Ok(())
    }
}


impl JPEGHeader {
    /// Reads a DHT segment: each table in it lands in the DC or AC slot
    /// its id names, and the declared length must be used up exactly.
    pub fn read_segment_dht(&mut self, reader: &mut BitReader) -> (r: Result<(), DecodeError>)
        requires
            old(reader).wf(),
            old(self).tables_wf(),
        ensures
            final(reader).wf(),
            final(reader).bytes() == old(reader).bytes(),
            final(self).quantization_tables@ == old(self).quantization_tables@,
            r is Ok ==> final(self).tables_wf(),
            match spec_dht_segment(old(reader).bytes(), old(reader).st(), old(self).hview()) {
                Ok((h2, st2)) => r == Ok::<(), DecodeError>(()) && final(self).hview() == h2
                    && final(reader).st() == st2,
                Err(e) => r == Err::<(), DecodeError>(e),
            },
    {
        let ghost data = reader.bytes();
        let ghost h0 = self.hview();
        let length: u16 = match reader.read_word() {
            Ok(w) => w,
            Err(e) => {
                return Err(e);
            },
        };
        let ghost st1 = reader.st();
        let ghost target = spec_dht_loop(data, st1, h0.ac_tables, h0.dc_tables, length - 2);
        let mut count: i32 = length as i32 - 2;
        while count > 0
            invariant
                -400 <= count <= 65535,
                reader.wf(),
                reader.bytes() == data,
                data == old(reader).bytes(),
                self.tables_wf(),
                self.quantization_tables@ == old(self).quantization_tables@,
                self.color_components@ == old(self).color_components@,
                self.height == old(self).height,
                self.width == old(self).width,
                self.components_number == old(self).components_number,
                self.zero_based == old(self).zero_based,
                self.start_of_selection == old(self).start_of_selection,
                self.end_of_selection == old(self).end_of_selection,
                self.successive_approximation_high == old(self).successive_approximation_high,
                self.successive_approximation_low == old(self).successive_approximation_low,
                self.restart_interval == old(self).restart_interval,
                h0 == old(self).hview(),
                target == spec_dht_loop(data, st1, h0.ac_tables, h0.dc_tables, length - 2),
                spec_dht_segment(data, old(reader).st(), h0) == (match target {
                    Ok((acs, dcs, st2)) => Ok::<(HeaderV, ReaderState), DecodeError>(
                        (HeaderV { ac_tables: acs, dc_tables: dcs, ..h0 }, st2),
                    ),
                    Err(e) => Err::<(HeaderV, ReaderState), DecodeError>(e),
                }),
                spec_dht_loop(
                    data,
                    reader.st(),
                    self.hview().ac_tables,
                    self.hview().dc_tables,
                    count as int,
                ) == target,
            decreases (if count <= 0 { 0int } else { count as int }),
        {
            let ghost prev_ac = self.hview().ac_tables;
            let ghost prev_dc = self.hview().dc_tables;
            let ghost prev_arr_ac = self.ac_tables@;
            let ghost prev_arr_dc = self.dc_tables@;
            let infos: u8 = match reader.read_byte() {
                Ok(b) => b,
                Err(e) => {
                    return Err(e);
                },
            };
            let table_id: u8 = infos & 0x0F;
            let is_ac_table: bool = ((infos >> 4u8) & 0x0F) == 1;
            if table_id > 3 {
                return Err(DecodeError::MalformedSegment);
            }
            let len: usize;
            let ghost st_call = reader.st();
            if is_ac_table {
                let mut t: HuffmanTable = self.ac_tables[table_id as usize];
                proof {
                    assert(self.ac_tables@[table_id as int].offsets@[0] == 0);
                }
                len = match t.from_binary(reader, table_id, is_ac_table) {
                    Ok(n) => n,
                    Err(e) => {
                        return Err(e);
                    },
                };
                self.ac_tables[table_id as usize] = t;
                proof {
                    match crate::huffman::spec_dht_counts(
                        data,
                        st_call,
                        1,
                        prev_ac[table_id as int].offsets,
                        0,
                    ) {
                        Ok((offs, n, stc)) => {
                            lemma_dht_counts_bounds(
                                data,
                                st_call,
                                1,
                                prev_ac[table_id as int].offsets,
                                0,
                            );
                        },
                        Err(_) => {},
                    }
                    assert(self.hview().ac_tables =~= prev_ac.update(table_id as int, t@));
                    assert(self.hview().dc_tables =~= prev_dc);
                    assert(t.offsets_wf() && t.offsets@[0] == 0);
                    assert forall|m: int|
                        0 <= m < 4 implies (#[trigger] self.ac_tables@[m]).offsets@[0] == 0
                        && self.ac_tables@[m].offsets_wf() by {
                        if m != table_id {
                            assert(self.ac_tables@[m] == prev_arr_ac[m]);
                        }
                    }
                    assert(self.tables_wf());
                }
            } else {
                let mut t: HuffmanTable = self.dc_tables[table_id as usize];
                proof {
                    assert(self.dc_tables@[table_id as int].offsets@[0] == 0);
                }
                len = match t.from_binary(reader, table_id, is_ac_table) {
                    Ok(n) => n,
                    Err(e) => {
                        return Err(e);
                    },
                };
                self.dc_tables[table_id as usize] = t;
                proof {
                    match crate::huffman::spec_dht_counts(
                        data,
                        st_call,
                        1,
                        prev_dc[table_id as int].offsets,
                        0,
                    ) {
                        Ok((offs, n, stc)) => {
                            lemma_dht_counts_bounds(
                                data,
                                st_call,
                                1,
                                prev_dc[table_id as int].offsets,
                                0,
                            );
                        },
                        Err(_) => {},
                    }
                    assert(self.hview().dc_tables =~= prev_dc.update(table_id as int, t@));
                    assert(self.hview().ac_tables =~= prev_ac);
                    assert(t.offsets_wf() && t.offsets@[0] == 0);
                    assert forall|m: int|
                        0 <= m < 4 implies (#[trigger] self.dc_tables@[m]).offsets@[0] == 0
                        && self.dc_tables@[m].offsets_wf() by {
                        if m != table_id {
                            assert(self.dc_tables@[m] == prev_arr_dc[m]);
                        }
                    }
                    assert(self.tables_wf());
                }
            }
            count = count - len as i32;
        }
        if count != 0 {
            return Err(DecodeError::MalformedSegment);
        }
        proof {
            assert(self.hview() =~= (HeaderV {
                ac_tables: self.hview().ac_tables,
                dc_tables: self.hview().dc_tables,
                ..h0
            }));
        }
        Ok(())
    }

    /// Reads a DRI segment: its length must be exactly four, and its
    /// payload is the restart interval.
    pub fn read_segment_dri(&mut self, reader: &mut BitReader) -> (r: Result<(), DecodeError>)
        requires
            old(reader).wf(),
        ensures
            final(reader).wf(),
            final(reader).bytes() == old(reader).bytes(),
            final(self).ac_tables@ == old(self).ac_tables@,
            final(self).dc_tables@ == old(self).dc_tables@,
            final(self).quantization_tables@ == old(self).quantization_tables@,
            match spec_dri_segment(old(reader).bytes(), old(reader).st(), old(self).hview()) {
                Ok((h2, st2)) => r == Ok::<(), DecodeError>(()) && final(self).hview() == h2
                    && final(reader).st() == st2,
                Err(e) => r == Err::<(), DecodeError>(e),
            },
    {
        let ghost h0 = self.hview();
        let length: u16 = match reader.read_word() {
            Ok(w) => w,
            Err(e) => {
                return Err(e);
            },
        };
        if length != 4 {
            return Err(DecodeError::MalformedSegment);
        }
        let ri: u16 = match reader.read_word() {
            Ok(w) => w,
            Err(e) => {
                return Err(e);
            },
        };
        self.restart_interval = ri;
        proof {
            assert(self.hview() =~= (HeaderV { restart_interval: ri, ..h0 }));
        }
        Ok(())
    }

    /// Reads a SOF0 segment: the frame's precision, size, and component
    /// descriptors.
    pub fn read_segment_sof0(&mut self, reader: &mut BitReader) -> (r: Result<(), DecodeError>)
        requires
            old(reader).wf(),
        ensures
            final(reader).wf(),
            final(reader).bytes() == old(reader).bytes(),
            final(self).ac_tables@ == old(self).ac_tables@,
            final(self).dc_tables@ == old(self).dc_tables@,
            final(self).quantization_tables@ == old(self).quantization_tables@,
            match spec_sof0_segment(old(reader).bytes(), old(reader).st(), old(self).hview()) {
                Ok((h2, st2)) => r == Ok::<(), DecodeError>(()) && final(self).hview() == h2
                    && final(reader).st() == st2,
                Err(e) => r == Err::<(), DecodeError>(e),
            },
    {
        let ghost data = reader.bytes();
        let ghost h0 = self.hview();
        let length: u16 = match reader.read_word() {
            Ok(w) => w,
            Err(e) => {
                return Err(e);
            },
        };
        let precision: u8 = match reader.read_byte() {
            Ok(b) => b,
            Err(e) => {
                return Err(e);
            },
        };
        if precision != 8 {
            return Err(DecodeError::UnsupportedFeature);
        }
        let height: u16 = match reader.read_word() {
            Ok(w) => w,
            Err(e) => {
                return Err(e);
            },
        };
        if height == 0 {
            return Err(DecodeError::MalformedSegment);
        }
        let width: u16 = match reader.read_word() {
            Ok(w) => w,
            Err(e) => {
                return Err(e);
            },
        };
        if width == 0 {
            return Err(DecodeError::MalformedSegment);
        }
        let component_numbers: u8 = match reader.read_byte() {
            Ok(b) => b,
            Err(e) => {
                return Err(e);
            },
        };
        if component_numbers != 1 && component_numbers != 3 {
            return Err(DecodeError::UnsupportedFeature);
        }
        let ghost st5 = reader.st();
        let ghost target = spec_sof0_components(
            data,
            st5,
            h0.color_components,
            0,
            component_numbers as int,
            false,
        );
        let mut zero_based: bool = false;
        let mut i: u8 = 0;
        while i < component_numbers
            invariant
                i <= component_numbers,
                component_numbers == 1 || component_numbers == 3,
                reader.wf(),
                reader.bytes() == data,
                data == old(reader).bytes(),
                self.quantization_tables@ == old(self).quantization_tables@,
                self.ac_tables@ == old(self).ac_tables@,
                self.dc_tables@ == old(self).dc_tables@,
                self.height == old(self).height,
                self.width == old(self).width,
                self.components_number == old(self).components_number,
                self.zero_based == old(self).zero_based,
                self.start_of_selection == old(self).start_of_selection,
                self.end_of_selection == old(self).end_of_selection,
                self.successive_approximation_high == old(self).successive_approximation_high,
                self.successive_approximation_low == old(self).successive_approximation_low,
                self.restart_interval == old(self).restart_interval,
                h0 == old(self).hview(),
                target == spec_sof0_components(
                    data,
                    st5,
                    h0.color_components,
                    0,
                    component_numbers as int,
                    false,
                ),
                spec_sof0_segment(data, old(reader).st(), h0) == (match target {
                    Ok((comps, zb, st6)) => if length - 2 - 6 - 3 * component_numbers != 0 {
                        Err::<(HeaderV, ReaderState), DecodeError>(DecodeError::MalformedSegment)
                    } else {
                        Ok::<(HeaderV, ReaderState), DecodeError>(
                            (
                                HeaderV {
                                    color_components: comps,
                                    height,
                                    width,
                                    components_number: component_numbers,
                                    zero_based: zb,
                                    ..h0
                                },
                                st6,
                            ),
                        )
                    },
                    Err(e) => Err::<(HeaderV, ReaderState), DecodeError>(e),
                }),
                spec_sof0_components(
                    data,
                    reader.st(),
                    self.hview().color_components,
                    i as int,
                    component_numbers as int,
                    zero_based,
                ) == target,
            decreases component_numbers - i,
        {
            let ghost prev = self.hview().color_components;
            let mut component_id: u8 = match reader.read_byte() {
                Ok(b) => b,
                Err(e) => {
                    return Err(e);
                },
            };
            if component_id > 3 {
                return Err(DecodeError::MalformedSegment);
            }
            if component_id == 0 && i == 0 {
                zero_based = true;
            }
            if zero_based {
                component_id = component_id + 1;
            }
            if component_id == 0 || component_id > component_numbers {
                return Err(DecodeError::MalformedSegment);
            }
            let idx: usize = (component_id - 1) as usize;
            let mut c: ColorComponent = self.color_components[idx];
            match c.from_binary(reader) {
                Ok(()) => (),
                Err(e) => {
                    return Err(e);
                },
            }
            self.color_components[idx] = c;
            proof {
                assert(self.hview().color_components =~= prev.update(idx as int, c));
            }
            i = i + 1;
        }
        if (length as i32) - 8 - 3 * (component_numbers as i32) != 0 {
            return Err(DecodeError::MalformedSegment);
        }
        self.height = height;
        self.width = width;
        self.components_number = component_numbers;
        self.zero_based = zero_based;
        proof {
            assert(self.hview() =~= (HeaderV {
                color_components: self.hview().color_components,
                height,
                width,
                components_number: component_numbers,
                zero_based,
                ..h0
            }));
        }
        Ok(())
    }

    /// Reads a SOS segment: the scan's components with their Huffman
    /// table assignments, then the spectral-selection fields, which
    /// baseline fixes at 0, 63, 0, 0.
    pub fn read_segment_sos(&mut self, reader: &mut BitReader) -> (r: Result<(), DecodeError>)
        requires
            old(reader).wf(),
            old(self).components_number <= 3,
        ensures
            final(reader).wf(),
            final(reader).bytes() == old(reader).bytes(),
            final(self).ac_tables@ == old(self).ac_tables@,
            final(self).dc_tables@ == old(self).dc_tables@,
            final(self).quantization_tables@ == old(self).quantization_tables@,
            match spec_sos_segment(old(reader).bytes(), old(reader).st(), old(self).hview()) {
                Ok((h2, st2)) => r == Ok::<(), DecodeError>(()) && final(self).hview() == h2
                    && final(reader).st() == st2,
                Err(e) => r == Err::<(), DecodeError>(e),
            },
    {
        let ghost data = reader.bytes();
        let ghost h0 = self.hview();
        if self.components_number == 0 {
            return Err(DecodeError::MalformedSegment);
        }
        let length: u16 = match reader.read_word() {
            Ok(w) => w,
            Err(e) => {
                return Err(e);
            },
        };
        let mut k: usize = 0;
        while k < 3
            invariant
                k <= 3,
                reader.wf(),
                reader.bytes() == data,
                self.quantization_tables@ == old(self).quantization_tables@,
                self.ac_tables@ == old(self).ac_tables@,
                self.dc_tables@ == old(self).dc_tables@,
                self.height == old(self).height,
                self.width == old(self).width,
                self.components_number == old(self).components_number,
                self.zero_based == old(self).zero_based,
                self.start_of_selection == old(self).start_of_selection,
                self.end_of_selection == old(self).end_of_selection,
                self.successive_approximation_high == old(self).successive_approximation_high,
                self.successive_approximation_low == old(self).successive_approximation_low,
                self.restart_interval == old(self).restart_interval,
                self.color_components@.len() == 3,
                forall|j: int|
                    0 <= j < k ==> self.color_components@[j] == (ColorComponent {
                        used_scan: false,
                        ..old(self).color_components@[j]
                    }),
                forall|j: int|
                    k <= j < 3 ==> self.color_components@[j] == old(self).color_components@[j],
            decreases 3 - k,
        {
            let mut c: ColorComponent = self.color_components[k];
            c.set_used_scan(false);
            self.color_components[k] = c;
            k = k + 1;
        }
        proof {
            assert(self.hview().color_components =~= spec_clear_scan(h0.color_components));
        }
        let components_number: u8 = match reader.read_byte() {
            Ok(b) => b,
            Err(e) => {
                return Err(e);
            },
        };
        let ghost st2 = reader.st();
        let ghost target = spec_sos_components(
            data,
            st2,
            spec_clear_scan(h0.color_components),
            0,
            components_number as int,
            h0.components_number as int,
            h0.zero_based,
        );
        let mut i: u8 = 0;
        while i < components_number
            invariant
                i <= components_number,
                reader.wf(),
                reader.bytes() == data,
                data == old(reader).bytes(),
                self.quantization_tables@ == old(self).quantization_tables@,
                self.ac_tables@ == old(self).ac_tables@,
                self.dc_tables@ == old(self).dc_tables@,
                self.height == old(self).height,
                self.width == old(self).width,
                self.components_number == old(self).components_number,
                self.zero_based == old(self).zero_based,
                self.start_of_selection == old(self).start_of_selection,
                self.end_of_selection == old(self).end_of_selection,
                self.successive_approximation_high == old(self).successive_approximation_high,
                self.successive_approximation_low == old(self).successive_approximation_low,
                self.restart_interval == old(self).restart_interval,
                self.components_number == h0.components_number,
                self.components_number <= 3,
                self.zero_based == h0.zero_based,
                h0 == old(self).hview(),
                target == spec_sos_components(
                    data,
                    st2,
                    spec_clear_scan(h0.color_components),
                    0,
                    components_number as int,
                    h0.components_number as int,
                    h0.zero_based,
                ),
                spec_sos_segment(data, old(reader).st(), h0) == (match target {
                    Ok((comps, st3)) => spec_sos_tail(data, st3, comps, h0, length, components_number),
                    Err(e) => Err::<(HeaderV, ReaderState), DecodeError>(e),
                }),
                spec_sos_components(
                    data,
                    reader.st(),
                    self.hview().color_components,
                    i as int,
                    components_number as int,
                    h0.components_number as int,
                    h0.zero_based,
                ) == target,
            decreases components_number - i,
        {
            let ghost prev = self.hview().color_components;
            let mut component_id: u8 = match reader.read_byte() {
                Ok(b) => b,
                Err(e) => {
                    return Err(e);
                },
            };
            if self.zero_based {
                if component_id == 255 {
                    return Err(DecodeError::MalformedSegment);
                }
                component_id = component_id + 1;
            }
            if component_id == 0 || component_id > self.components_number {
                return Err(DecodeError::MalformedSegment);
            }
            let idx: usize = (component_id - 1) as usize;
            let c0: ColorComponent = self.color_components[idx];
            if !c0.used_frame || c0.used_scan {
                return Err(DecodeError::MalformedSegment);
            }
            let huffman_table_ids: u8 = match reader.read_byte() {
                Ok(b) => b,
                Err(e) => {
                    return Err(e);
                },
            };
            let huffman_ac_table_id: u8 = huffman_table_ids & 0x0F;
            let huffman_dc_table_id: u8 = (huffman_table_ids >> 4u8) & 0x0F;
            if huffman_ac_table_id > 3 || huffman_dc_table_id > 3 {
                return Err(DecodeError::MalformedSegment);
            }
            let c1: ColorComponent = ColorComponent {
                huffman_ac_table_id,
                huffman_dc_table_id,
                used_scan: true,
                ..c0
            };
            self.color_components[idx] = c1;
            proof {
                assert(self.hview().color_components =~= prev.update(idx as int, c1));
            }
            i = i + 1;
        }
        let start_of_selection: u8 = match reader.read_byte() {
            Ok(b) => b,
            Err(e) => {
                return Err(e);
            },
        };
        if start_of_selection != 0 {
            return Err(DecodeError::UnsupportedFeature);
        }
        let end_of_selection: u8 = match reader.read_byte() {
            Ok(b) => b,
            Err(e) => {
                return Err(e);
            },
        };
        if end_of_selection != 63 {
            return Err(DecodeError::UnsupportedFeature);
        }
        let successive_approximation: u8 = match reader.read_byte() {
            Ok(b) => b,
            Err(e) => {
                return Err(e);
            },
        };
        if successive_approximation != 0 {
            return Err(DecodeError::UnsupportedFeature);
        }
        if (length as i32) - 2 - 1 - 2 * (components_number as i32) - 3 != 0 {
            return Err(DecodeError::MalformedSegment);
        }
        self.start_of_selection = start_of_selection;
        self.end_of_selection = end_of_selection;
        self.successive_approximation_high = (successive_approximation >> 4u8) & 0x0F;
        self.successive_approximation_low = successive_approximation & 0x0F;
        proof {
            assert(self.hview() =~= (HeaderV {
                color_components: self.hview().color_components,
                start_of_selection: 0u8,
                end_of_selection: 63u8,
                successive_approximation_high: (successive_approximation >> 4u8) & 0x0F,
                successive_approximation_low: successive_approximation & 0x0F,
                ..h0
            }));
        }
        Ok(())
    }
}


/// The header before any segment has been read: empty tables, cleared
/// components, zero frame parameters.
pub open spec fn spec_new_header() -> HeaderV {
    HeaderV {
        quantization_tables: Seq::new(
            4,
            |i: int| QTableV { table: Seq::new(64, |j: int| 0u16), table_id: 0u8 },
        ),
        ac_tables: Seq::new(4, |i: int| spec_new_htable()),
        dc_tables: Seq::new(4, |i: int| spec_new_htable()),
        color_components: Seq::new(3, |i: int| ColorComponent::new_spec()),
        height: 0,
        width: 0,
        components_number: 0,
        zero_based: false,
        start_of_selection: 0,
        end_of_selection: 0,
        successive_approximation_high: 0,
        successive_approximation_low: 0,
        restart_interval: 0,
    }
}

/// Canonical code generation on a table's view: a slot no segment
/// declared stays untouched.
pub open spec fn spec_gen_htable(v: HTableV) -> HTableV {
    if !v.is_set {
        v
    } else {
        HTableV { codes: spec_gen_codes(v.offsets, 0, 0, v.codes).0, ..v }
    }
}

impl JPEGHeader {
    /// Parses every segment from SOI up to and including SOS.
    pub fn from_binary(reader: &mut BitReader) -> (r: Result<JPEGHeader, DecodeError>)
        requires
            old(reader).wf(),
        ensures
            final(reader).wf(),
            final(reader).bytes() == old(reader).bytes(),
            match spec_parse_header(old(reader).bytes(), old(reader).st(), spec_new_header()) {
                Ok((hv, st2)) => r is Ok && r->Ok_0.hview() == hv && r->Ok_0.tables_wf()
                    && r->Ok_0.components_number <= 3 && final(reader).st() == st2,
                Err(e) => r == Err::<JPEGHeader, DecodeError>(e),
            },
    {
        let ghost data = reader.bytes();
        let mut header: JPEGHeader = JPEGHeader::new();
        let marker: u16 = match reader.read_word() {
            Ok(w) => w,
            Err(e) => {
                return Err(e);
            },
        };
        match SegmentType::from_marker(marker) {
            Some(SegmentType::SOI) => (),
            _ => {
                return Err(DecodeError::BadMagic);
            },
        }
        let ghost target = spec_header_loop(data, reader.st(), spec_new_header());
        loop
            invariant
                reader.wf(),
                reader.bytes() == data,
                data == old(reader).bytes(),
                header.tables_wf(),
                header.components_number <= 3,
                spec_parse_header(data, old(reader).st(), spec_new_header()) == target,
                spec_header_loop(data, reader.st(), header.hview()) == target,
            decreases data.len() - reader.st().pos,
        {
            let ghost st_loop = reader.st();
            let ghost h_loop = header.hview();
            let marker: u16 = match reader.read_word() {
                Ok(w) => w,
                Err(e) => {
                    return Err(e);
                },
            };
            proof {
                lemma_segment_pos(data, reader.st(), h_loop);
            }
            let seg: SegmentType = match SegmentType::from_marker(marker) {
                Some(s) => s,
                None => {
                    return Err(DecodeError::UnknownMarker);
                },
            };
            match seg {
                SegmentType::APPN | SegmentType::COM | SegmentType::DHP | SegmentType::DNL
                    | SegmentType::EXP | SegmentType::JPGN => {
                    match header.read_comment(reader) {
                        Ok(()) => (),
                        Err(e) => {
                            return Err(e);
                        },
                    }
                },
                SegmentType::DHT => {
                    match header.read_segment_dht(reader) {
                        Ok(()) => (),
                        Err(e) => {
                            return Err(e);
                        },
                    }
                },
                SegmentType::DQT => {
                    match header.read_segment_dqt(reader) {
                        Ok(()) => (),
                        Err(e) => {
                            return Err(e);
                        },
                    }
                },
                SegmentType::DRI => {
                    match header.read_segment_dri(reader) {
                        Ok(()) => (),
                        Err(e) => {
                            return Err(e);
                        },
                    }
                },
                SegmentType::SOF0 => {
                    match header.read_segment_sof0(reader) {
                        Ok(()) => (),
                        Err(e) => {
                            return Err(e);
                        },
                    }
                },
                SegmentType::SOS => {
                    match header.read_segment_sos(reader) {
                        Ok(()) => (),
                        Err(e) => {
                            return Err(e);
                        },
                    }
                    return Ok(header);
                },
                SegmentType::TEM => (),
                SegmentType::DAC => {
                    return Err(DecodeError::UnsupportedFeature);
                },
                SegmentType::EOI => {
                    return Err(DecodeError::MalformedSegment);
                },
                SegmentType::RSTN => {
                    return Err(DecodeError::MalformedSegment);
                },
                SegmentType::SOI => {
                    return Err(DecodeError::UnsupportedFeature);
                },
            }
        }
    }

    pub fn quantization_tables(&self, index: usize) -> (r: Option<&QuantizationTable>)
        ensures
            index < 4 ==> r == Some(&self.quantization_tables[index as int]),
            index >= 4 ==> r is None,
    {
        if index < 4 {
            Some(&self.quantization_tables[index])
        } else {
            None
        }
    }

    pub fn ac_table(&self, index: usize) -> (r: Option<&HuffmanTable>)
        ensures
            index < 4 ==> r == Some(&self.ac_tables[index as int]),
            index >= 4 ==> r is None,
    {
        if index < 4 {
            Some(&self.ac_tables[index])
        } else {
            None
        }
    }

    pub fn dc_table(&self, index: usize) -> (r: Option<&HuffmanTable>)
        ensures
            index < 4 ==> r == Some(&self.dc_tables[index as int]),
            index >= 4 ==> r is None,
    {
        if index < 4 {
            Some(&self.dc_tables[index])
        } else {
            None
        }
    }

    /// Derives the canonical codes of every declared Huffman table.
    pub fn generate_tables_codes(&mut self)
        requires
            old(self).tables_wf(),
        ensures
            final(self).tables_wf(),
            *final(self) == (JPEGHeader {
                ac_tables: final(self).ac_tables,
                dc_tables: final(self).dc_tables,
                ..*old(self)
            }),
            forall|i: int|
                0 <= i < 4 ==> (#[trigger] final(self).ac_tables@[i])@ == spec_gen_htable(
                    old(self).ac_tables@[i]@,
                ),
            forall|i: int|
                0 <= i < 4 ==> (#[trigger] final(self).dc_tables@[i])@ == spec_gen_htable(
                    old(self).dc_tables@[i]@,
                ),
    {
        let mut i: usize = 0;
        while i < 4
            invariant
                i <= 4,
                old(self).tables_wf(),
                *self == (JPEGHeader {
                    ac_tables: self.ac_tables,
                    dc_tables: self.dc_tables,
                    ..*old(self)
                }),
                forall|j: int|
                    0 <= j < i ==> (#[trigger] self.ac_tables@[j])@ == spec_gen_htable(
                        old(self).ac_tables@[j]@,
                    ),
                forall|j: int|
                    0 <= j < i ==> (#[trigger] self.dc_tables@[j])@ == spec_gen_htable(
                        old(self).dc_tables@[j]@,
                    ),
                forall|j: int|
                    i <= j < 4 ==> #[trigger] self.ac_tables@[j] == old(self).ac_tables@[j],
                forall|j: int|
                    i <= j < 4 ==> #[trigger] self.dc_tables@[j] == old(self).dc_tables@[j],
                forall|j: int|
                    0 <= j < 4 ==> (#[trigger] self.ac_tables@[j]).offsets@ == old(
                        self,
                    ).ac_tables@[j].offsets@,
                forall|j: int|
                    0 <= j < 4 ==> (#[trigger] self.dc_tables@[j]).offsets@ == old(
                        self,
                    ).dc_tables@[j].offsets@,
            decreases 4 - i,
        {
            let mut t: HuffmanTable = self.ac_tables[i];
            t.generate_codes();
            self.ac_tables[i] = t;
            let mut t2: HuffmanTable = self.dc_tables[i];
            t2.generate_codes();
            self.dc_tables[i] = t2;
            i = i + 1;
        }
    }

    pub fn color_component(&self, index: usize) -> (r: Option<&ColorComponent>)
        ensures
            index < 3 ==> r == Some(&self.color_components[index as int]),
            index >= 3 ==> r is None,
    {
        if index < 3 {
            Some(&self.color_components[index])
        } else {
            None
        }
    }

    pub fn components_number(&self) -> (r: u8)
        ensures
            r == self.components_number,
    {
        self.components_number
    }

    pub fn restart_interval(&self) -> (r: u16)
        ensures
            r == self.restart_interval,
    {
        self.restart_interval
    }

    /// How many 8-pixel block columns the frame spans.
    pub fn mcu_width(&self) -> (r: usize)
        ensures
            r == crate::bmp::spec_blocks_across(self.width as int),
    {
        (self.width as usize + 7) / 8
    }

    /// How many 8-pixel block rows the frame spans.
    pub fn mcu_height(&self) -> (r: usize)
        ensures
            r == crate::bmp::spec_blocks_across(self.height as int),
    {
        (self.height as usize + 7) / 8
    }

    /// The BMP header describing this frame's raster: a 26-byte
    /// BITMAPCOREHEADER file of `width * height` 24-bit pixels with
    /// each row padded by `width mod 4` bytes.
    pub fn to_bmp(&self) -> (r: BMPHeader)
        requires
            14 + 12 + 3 * self.width * self.height + (self.width as int % 4) * self.height
                <= u32::MAX,
        ensures
            r.bmp_size == 14 + 12 + 3 * self.width * self.height + (self.width as int % 4)
                * self.height,
            r.header_size == 12,
            r.height == self.height,
            r.width == self.width,
            r.components_number == 1,
            r.starting_offset == 0x1A,
            r.bits_per_pixel == 24,
    {
        let w: u32 = self.width as u32;
        let h: u32 = self.height as u32;
        let padding_size: u32 = w % 4;
        proof {
            assert(w * h == self.width * self.height) by (nonlinear_arith)
                requires
                    w == self.width && h == self.height,
            ;
            assert(3 * (w * h) == 3 * self.width * self.height) by (nonlinear_arith)
                requires
                    w * h == self.width * self.height,
            ;
            assert(padding_size * h == (self.width as int % 4) * self.height) by (nonlinear_arith)
                requires
                    padding_size == self.width as int % 4 && h == self.height,
            ;
        }
        let bmp_size: u32 = 14 + 12 + 3 * (w * h) + padding_size * h;
        BMPHeader {
            bmp_size,
            header_size: 12,
            height: self.height,
            width: self.width,
            components_number: 1,
            starting_offset: 0x1A,
            bits_per_pixel: 24,
        }
    }
}

} // verus!
