//! Quantisation tables: 64 sixteen-bit entries each, stored in raster
//! order after de-zig-zagging the wire order.

use vstd::prelude::*;

use crate::bit_reader::{
    spec_read_byte, spec_read_word, BitReader, ReaderState,
};
use crate::{zigzag_spec, DecodeError};

verus! {

/// One quantisation table, with the id it was declared under.
#[derive(Clone, Copy, Debug)]
pub struct QuantizationTable {
    pub table: [u16; 64],
    pub table_id: u8,
}

/// The mathematical view of a quantisation table.
#[verifier::ext_equal]
pub struct QTableV {
    pub table: Seq<u16>,
    pub table_id: u8,
}

impl View for QuantizationTable {
    type V = QTableV;

    open spec fn view(&self) -> QTableV {
        QTableV { table: self.table@, table_id: self.table_id }
    }
}

/// The table that reads `k` and the following wire entries of a DQT
/// payload into `tbl`, de-zig-zagged, together with the reader state
/// after the last entry.  Entries are single bytes when
/// `element_size == 0` and big-endian words when it is `1`.
pub open spec fn spec_dqt_read(
    data: Seq<u8>,
    st: ReaderState,
    element_size: u8,
    k: int,
    tbl: Seq<u16>,
) -> Result<(Seq<u16>, ReaderState), DecodeError>
    decreases 64 - k,
{
    if k >= 64 {
        Ok((tbl, st))
    } else if element_size == 0 {
        match spec_read_byte(data, st) {
            Ok((st2, b)) => spec_dqt_read(
                data,
                st2,
                element_size,
                k + 1,
                tbl.update(zigzag_spec(k), b as u16),
            ),
            Err(e) => Err(e),
        }
    } else {
        match spec_read_word(data, st) {
            Ok((st2, w)) => spec_dqt_read(data, st2, element_size, k + 1, tbl.update(zigzag_spec(k), w)),
            Err(e) => Err(e),
        }
    }
}

impl Default for QuantizationTable {
    /// A table of zeroes under id zero.
    fn default() -> (r: QuantizationTable)
        ensures
            r.table@ == Seq::<u16>::new(64, |i: int| 0u16),
            r.table_id == 0,
    {
        QuantizationTable::new()
    }
}

impl QuantizationTable {
    /// A table of zeroes under id zero, the state before any DQT
    /// segment declares it.
    pub fn new() -> (r: QuantizationTable)
        ensures
            r.table@ == Seq::<u16>::new(64, |i: int| 0u16),
            r.table_id == 0,
    {
        let r = QuantizationTable { table: [0u16; 64], table_id: 0 };
        assert(r.table@ =~= Seq::<u16>::new(64, |i: int| 0u16));
        r
    }

    /// The entry at raster position `index`.
    pub fn table(&self, index: usize) -> (r: u16)
        requires
            index < 64,
        ensures
            r == self.table@[index as int],
    {
        self.table[index]
    }

    /// Reads the 64 entries of one table of a DQT segment, in zig-zag
    /// wire order, into raster order.  Returns the number of payload
    /// bytes consumed.
    pub fn from_binary(
        &mut self,
        reader: &mut BitReader,
        table_id: u8,
        element_size: u8,
    ) -> (r: Result<usize, DecodeError>)
        requires
            old(reader).wf(),
            table_id <= 3,
            element_size <= 1,
        ensures
            final(reader).wf(),
            final(reader).bytes() == old(reader).bytes(),
            match spec_dqt_read(
                old(reader).bytes(),
                old(reader).st(),
                element_size,
                0,
                Seq::<u16>::new(64, |i: int| 0u16),
            ) {
                Ok((tbl, st2)) => r == Ok::<usize, DecodeError>(
                    if element_size == 0 {
                        64usize
                    } else {
                        128usize
                    },
                ) && final(reader).st() == st2 && final(self).table@ == tbl && final(self).table_id == table_id,
                Err(e) => r == Err::<usize, DecodeError>(e),
            },
    {
        let ghost target = spec_dqt_read(
            reader.bytes(),
            reader.st(),
            element_size,
            0,
            Seq::<u16>::new(64, |i: int| 0u16),
        );
        let mut tbl: [u16; 64] = [0u16; 64];
        assert(tbl@ =~= Seq::<u16>::new(64, |i: int| 0u16));
        let zigzag: [usize; 64] = crate::zigzag_map();
        let mut k: usize = 0;
        while k < 64
            invariant
                k <= 64,
                reader.wf(),
                reader.bytes() == old(reader).bytes(),
                forall|j: int| 0 <= j < 64 ==> zigzag[j] == zigzag_spec(j),
                spec_dqt_read(
                    old(reader).bytes(),
                    old(reader).st(),
                    element_size,
                    0,
                    Seq::<u16>::new(64, |i: int| 0u16),
                ) == target,
                spec_dqt_read(reader.bytes(), reader.st(), element_size, k as int, tbl@) == target,
                element_size <= 1,
            decreases 64 - k,
        {
            proof {
                crate::lemma_zigzag_in_range(k as int);
            }
            let v: u16 = if element_size == 0 {
                match reader.read_byte() {
                    Ok(b) => b as u16,
                    Err(e) => {
                        return Err(e);
                    },
                }
            } else {
                match reader.read_word() {
                    Ok(w) => w,
                    Err(e) => {
                        return Err(e);
                    },
                }
            };
            tbl[zigzag[k]] = v;
            k = k + 1;
        }
        self.table = tbl;
        self.table_id = table_id;
        if element_size == 0 {
            Ok(64)
        } else {
            Ok(128)
        }
    }
}

} // verus!
