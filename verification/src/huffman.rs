//! Huffman tables: length counts, the symbol alphabet in code-length
//! order, and the canonical codes derived from them.

use vstd::prelude::*;

use crate::bit_reader::{spec_read_byte, BitReader, ReaderState};
use crate::DecodeError;

verus! {

/// One Huffman table.  `offsets[i+1] - offsets[i]` is how many codes
/// have length `i+1`; `symbols[offsets[i]..offsets[i+1]]` are their
/// symbols; `codes` holds the canonical code of each symbol once
/// `generate_codes` has run.  `is_set` tells a declared table from a
/// default-constructed slot.
#[derive(Clone, Copy, Debug)]
pub struct HuffmanTable {
    pub table_id: u8,
    pub offsets: [u8; 17],
    pub symbols: [u8; 162],
    pub codes: [u32; 162],
    pub is_ac_table: bool,
    pub is_set: bool,
}

/// The mathematical view of a Huffman table.
#[verifier::ext_equal]
pub struct HTableV {
    pub table_id: u8,
    pub offsets: Seq<u8>,
    pub symbols: Seq<u8>,
    pub codes: Seq<u32>,
    pub is_ac_table: bool,
    pub is_set: bool,
}

impl HTableV {
    /// Every running total fits the alphabet.
    pub open spec fn offsets_wf(self) -> bool {
        forall|i: int| 0 <= i < 17 ==> self.offsets[i] <= 162
    }
}

impl View for HuffmanTable {
    type V = HTableV;

    open spec fn view(&self) -> HTableV {
        HTableV {
            table_id: self.table_id,
            offsets: self.offsets@,
            symbols: self.symbols@,
            codes: self.codes@,
            is_ac_table: self.is_ac_table,
            is_set: self.is_set,
        }
    }
}

/// What one DHT table declaration does to a table's view: the counts
/// update the offsets, the alphabet follows, codes are untouched, and
/// the consumed length `17 + n` is returned with it.
pub open spec fn spec_htable_from_binary(
    data: Seq<u8>,
    st: ReaderState,
    h: HTableV,
    table_id: u8,
    is_ac_table: bool,
) -> Result<(HTableV, int, ReaderState), DecodeError> {
    match spec_dht_counts(data, st, 1, h.offsets, 0) {
        Err(e) => Err(e),
        Ok((offs, n, st1)) => match spec_dht_symbols(data, st1, 0, n, h.symbols.update(0, 0u8)) {
            Err(e) => Err(e),
            Ok((syms, st2)) => Ok(
                (
                    HTableV {
                        table_id,
                        offsets: offs,
                        symbols: syms,
                        is_ac_table,
                        is_set: true,
                        ..h
                    },
                    17 + n,
                    st2,
                ),
            ),
        },
    }
}

/// Reads the DHT length counts for code lengths `i..=16` onto the
/// running symbol count `count`, recording each running total in
/// `offs`.  More than 162 symbols in one table is malformed.
pub open spec fn spec_dht_counts(
    data: Seq<u8>,
    st: ReaderState,
    i: int,
    offs: Seq<u8>,
    count: int,
) -> Result<(Seq<u8>, int, ReaderState), DecodeError>
    decreases 17 - i,
{
    if i >= 17 {
        Ok((offs, count, st))
    } else {
        match spec_read_byte(data, st) {
            Ok((st2, c)) => if count + c > 162 {
                Err(DecodeError::MalformedSegment)
            } else {
                spec_dht_counts(data, st2, i + 1, offs.update(i, (count + c) as u8), count + c)
            },
            Err(e) => Err(e),
        }
    }
}

/// Reads symbols `j..n` of a DHT segment into `syms`.
pub open spec fn spec_dht_symbols(
    data: Seq<u8>,
    st: ReaderState,
    j: int,
    n: int,
    syms: Seq<u8>,
) -> Result<(Seq<u8>, ReaderState), DecodeError>
    decreases n - j,
{
    if j >= n {
        Ok((syms, st))
    } else {
        match spec_read_byte(data, st) {
            Ok((st2, b)) => spec_dht_symbols(data, st2, j + 1, n, syms.update(j, b)),
            Err(e) => Err(e),
        }
    }
}

/// Assigns consecutive code values `code, code + 1, ...` to the symbol
/// indices `j..hi`, returning the updated code table and the value
/// after the run.
pub open spec fn spec_assign_run(j: int, hi: int, code: int, codes: Seq<u32>) -> (Seq<u32>, int)
    decreases hi - j,
{
    if j >= hi {
        (codes, code)
    } else {
        spec_assign_run(j + 1, hi, code + 1, codes.update(j, code as u32))
    }
}

/// The canonical code generation pass from length round `i` on: each
/// length's symbols take consecutive values, and the counter shifts
/// left by one when the length grows.
pub open spec fn spec_gen_codes(offsets: Seq<u8>, i: int, code: int, codes: Seq<u32>) -> (
    Seq<u32>,
    int,
)
    decreases 16 - i,
{
    if i >= 16 {
        (codes, code)
    } else {
        let (codes2, code2) = spec_assign_run(
            offsets[i] as int,
            offsets[i + 1] as int,
            code,
            codes,
        );
        spec_gen_codes(offsets, i + 1, 2 * code2, codes2)
    }
}

impl Default for HuffmanTable {
    /// The slot no DHT segment has declared yet.
    fn default() -> (r: HuffmanTable)
        ensures
            r@ == spec_new_htable(),
    {
        HuffmanTable::new()
    }
}

/// The view of a Huffman slot no segment has declared.
pub open spec fn spec_new_htable() -> HTableV {
    HTableV {
        table_id: 0,
        offsets: Seq::new(17, |i: int| 0u8),
        symbols: Seq::new(162, |i: int| 0u8),
        codes: Seq::new(162, |i: int| 0u32),
        is_ac_table: true,
        is_set: false,
    }
}

impl HuffmanTable {
    /// The slot no DHT segment has declared yet.
    pub fn new() -> (r: HuffmanTable)
        ensures
            r.table_id == 0,
            r.offsets@ == Seq::<u8>::new(17, |i: int| 0u8),
            r.symbols@ == Seq::<u8>::new(162, |i: int| 0u8),
            r.codes@ == Seq::<u32>::new(162, |i: int| 0u32),
            r.is_ac_table == true,
            r.is_set == false,
    {
        let r = HuffmanTable {
            table_id: 0,
            offsets: [0u8; 17],
            symbols: [0u8; 162],
            codes: [0u32; 162],
            is_ac_table: true,
            is_set: false,
        };
        assert(r.offsets@ =~= Seq::<u8>::new(17, |i: int| 0u8));
        assert(r.symbols@ =~= Seq::<u8>::new(162, |i: int| 0u8));
        assert(r.codes@ =~= Seq::<u32>::new(162, |i: int| 0u32));
        r
    }

    /// Every running total fits the alphabet.
    pub open spec fn offsets_wf(self) -> bool {
        forall|i: int| 0 <= i < 17 ==> self.offsets@[i] <= 162
    }

    pub fn offsets(&self, index: usize) -> (r: u8)
        requires
            index < 17,
        ensures
            r == self.offsets@[index as int],
    {
        self.offsets[index]
    }

    pub fn symbols(&self, index: usize) -> (r: u8)
        requires
            index < 162,
        ensures
            r == self.symbols@[index as int],
    {
        self.symbols[index]
    }

    pub fn codes(&self, index: usize) -> (r: u32)
        requires
            index < 162,
        ensures
            r == self.codes@[index as int],
    {
        self.codes[index]
    }

    /// Reads one table of a DHT segment: sixteen length counts, then
    /// the symbol alphabet.  Returns the number of payload bytes
    /// consumed.  Fails without changing the table.
    pub fn from_binary(
        &mut self,
        reader: &mut BitReader,
        table_id: u8,
        is_ac_table: bool,
    ) -> (r: Result<usize, DecodeError>)
        requires
            old(reader).wf(),
            table_id <= 3,
            old(self).offsets@[0] == 0,
        ensures
            final(reader).wf(),
            final(reader).bytes() == old(reader).bytes(),
            match spec_dht_counts(
                old(reader).bytes(),
                old(reader).st(),
                1,
                old(self).offsets@,
                0,
            ) {
                Ok((offs, n, st1)) => match spec_dht_symbols(
                    old(reader).bytes(),
                    st1,
                    0,
                    n,
                    old(self).symbols@.update(0, 0u8),
                ) {
                    Ok((syms, st2)) => r == Ok::<usize, DecodeError>((17 + n) as usize) && final(reader).st() == st2 && *final(self) == (HuffmanTable {
                        table_id,
                        offsets: final(self).offsets,
                        symbols: final(self).symbols,
                        is_ac_table,
                        is_set: true,
                        ..*old(self)
                    }) && final(self).offsets@ == offs && final(self).symbols@ == syms,
                    Err(e) => r == Err::<usize, DecodeError>(e) && *final(self) == *old(self),
                },
                Err(e) => r == Err::<usize, DecodeError>(e) && *final(self) == *old(self),
            },
            r is Ok ==> final(self).offsets_wf() && final(self).offsets@[0] == old(self).offsets@[0],
            r is Ok ==> 17 <= r->Ok_0 <= 179,
    {
        let ghost data = reader.bytes();
        let ghost target_counts = spec_dht_counts(data, reader.st(), 1, self.offsets@, 0);
        let mut offs: [u8; 17] = self.offsets;
        let mut count: usize = 0;
        let mut i: usize = 1;
        while i < 17
            invariant
                1 <= i <= 17,
                count <= 162,
                reader.wf(),
                reader.bytes() == data,
                data == old(reader).bytes(),
                offs@.len() == 17,
                offs@[0] == old(self).offsets@[0],
                forall|m: int| 1 <= m < i ==> offs@[m] <= 162,
                target_counts == spec_dht_counts(data, old(reader).st(), 1, old(self).offsets@, 0),
                spec_dht_counts(data, reader.st(), i as int, offs@, count as int) == target_counts,
            decreases 17 - i,
        {
            let c: u8 = match reader.read_byte() {
                Ok(b) => b,
                Err(e) => {
                    return Err(e);
                },
            };
            if count + (c as usize) > 162 {
                return Err(DecodeError::MalformedSegment);
            }
            count = count + c as usize;
            offs[i] = count as u8;
            i = i + 1;
        }
        let ghost st1 = reader.st();
        let mut syms: [u8; 162] = self.symbols;
        syms[0] = 0;
        let ghost syms0 = syms@;
        let ghost target_syms = spec_dht_symbols(data, st1, 0, count as int, syms@);
        assert(syms0 == old(self).symbols@.update(0, 0u8)) by {
            assert(syms0 =~= old(self).symbols@.update(0, 0u8));
        }
        let mut j: usize = 0;
        while j < count
            invariant
                j <= count,
                count <= 162,
                reader.wf(),
                reader.bytes() == data,
                data == old(reader).bytes(),
                syms@.len() == 162,
                offs@.len() == 17,
                offs@[0] == old(self).offsets@[0],
                forall|m: int| 1 <= m < 17 ==> offs@[m] <= 162,
                self == old(self),
                spec_dht_counts(data, old(reader).st(), 1, old(self).offsets@, 0) == Ok::<
                    (Seq<u8>, int, ReaderState),
                    DecodeError,
                >((offs@, count as int, st1)),
                syms0 == old(self).symbols@.update(0, 0u8),
                target_syms == spec_dht_symbols(data, st1, 0, count as int, syms0),
                spec_dht_symbols(data, reader.st(), j as int, count as int, syms@) == target_syms,
            decreases count - j,
        {
            let b: u8 = match reader.read_byte() {
                Ok(v) => v,
                Err(e) => {
                    return Err(e);
                },
            };
            syms[j] = b;
            j = j + 1;
        }
        self.offsets = offs;
        self.symbols = syms;
        self.table_id = table_id;
        self.is_ac_table = is_ac_table;
        self.is_set = true;
        Ok(17 + count)
    }

    /// Derives the canonical codes: within each code length the symbols
    /// take consecutive values, and the counter doubles when the length
    /// grows by one.  A slot no segment declared stays untouched.
    pub fn generate_codes(&mut self)
        requires
            old(self).offsets_wf(),
        ensures
            !old(self).is_set ==> *final(self) == *old(self),
            old(self).is_set ==> *final(self) == (HuffmanTable {
                codes: final(self).codes,
                ..*old(self)
            }) && final(self).codes@ == spec_gen_codes(
                old(self).offsets@,
                0,
                0,
                old(self).codes@,
            ).0,
    {
        if !self.is_set {
            return ;
        }
        let ghost offs = self.offsets@;
        let ghost target = spec_gen_codes(offs, 0, 0, self.codes@);
        proof {
            reveal_with_fuel(crate::bit_reader::pow2_int, 3);
        }
        let mut codes: [u32; 162] = self.codes;
        let mut code: u32 = 0;
        let mut i: usize = 0;
        while i < 16
            invariant
                i <= 16,
                offs == self.offsets@,
                self == old(self),
                old(self).offsets_wf(),
                target == spec_gen_codes(offs, 0, 0, old(self).codes@),
                code <= 255 * (crate::bit_reader::pow2_int(i as int + 1) - 2),
                spec_gen_codes(offs, i as int, code as int, codes@) == target,
            decreases 16 - i,
        {
            proof {
                crate::bit_reader::lemma_pow2_int_monotone(i as int + 1, 17);
                assert(crate::bit_reader::pow2_int(17) == 131072) by {
                    reveal_with_fuel(crate::bit_reader::pow2_int, 18);
                }
            }
            let lo: u8 = self.offsets[i];
            let hi: u8 = self.offsets[i + 1];
            let mut j: usize = lo as usize;
            if j < hi as usize {
                while j < hi as usize
                    invariant
                        lo as usize <= j <= hi as usize,
                        hi <= 162,
                        i < 16,
                        offs == self.offsets@,
                        self == old(self),
                        lo == offs[i as int],
                        hi == offs[i as int + 1],
                        code as int - (j - lo) >= 0,
                        code <= 255 * (crate::bit_reader::pow2_int(i as int + 1) - 2) + (j - lo as int),
                        target == spec_gen_codes(offs, 0, 0, old(self).codes@),
                        ({
                            let (cs, c2) = spec_assign_run(
                                j as int,
                                hi as int,
                                code as int,
                                codes@,
                            );
                            spec_gen_codes(offs, i as int + 1, 2 * c2, cs) == target
                        }),
                    decreases hi - j,
                {
                    proof {
                        crate::bit_reader::lemma_pow2_int_monotone(i as int + 1, 17);
                        assert(crate::bit_reader::pow2_int(17) == 131072) by {
                            reveal_with_fuel(crate::bit_reader::pow2_int, 18);
                        }
                    }
                    codes[j] = code;
                    code = code + 1;
                    j = j + 1;
                }
            }
            code = code * 2;
            i = i + 1;
        }
        self.codes = codes;
    }
}


/// The counter value with which code generation enters length round
/// `i`: zero at first, and after each round the count of that round's
/// symbols is added and the whole shifted left once.
pub open spec fn spec_code_base(offsets: Seq<u8>, i: int) -> int
    decreases i,
{
    if i <= 0 {
        0
    } else {
        2 * (spec_code_base(offsets, i - 1) + offsets[i] - offsets[i - 1])
    }
}

/// Length counts that only grow, as cumulative sums do.
pub open spec fn offsets_monotone(offsets: Seq<u8>) -> bool {
    forall|m: int| 0 <= m < 16 ==> #[trigger] offsets[m] <= offsets[m + 1]
}

/// The code counter never goes negative.
pub proof fn lemma_code_base_nonneg(offsets: Seq<u8>, i: int)
    requires
        offsets_monotone(offsets),
        0 <= i <= 16,
    ensures
        spec_code_base(offsets, i) >= 0,
    decreases i,
{
    if i > 0 {
        lemma_code_base_nonneg(offsets, i - 1);
    }
}

/// The code counter stays below `255 * 2^(i+1)`.
pub proof fn lemma_code_base_bound(offsets: Seq<u8>, i: int)
    requires
        offsets_monotone(offsets),
        0 <= i <= 16,
    ensures
        spec_code_base(offsets, i) <= 255 * (crate::bit_reader::pow2_int(i + 1) - 2),
    decreases i,
{
    crate::bit_reader::lemma_pow2_int_pos(i);
    if i > 0 {
        lemma_code_base_bound(offsets, i - 1);
        crate::bit_reader::lemma_pow2_int_pos(i - 1);
    }
}

/// What one assignment run does: consecutive values land on `j..hi`,
/// the counter advances by the run's width, and nothing else moves.
pub proof fn lemma_assign_run_facts(j: int, hi: int, code: int, codes: Seq<u32>)
    requires
        0 <= j,
        0 <= code,
        code + (hi - j) <= 0xFFFFFFFF,
        hi <= codes.len(),
    ensures
        spec_assign_run(j, hi, code, codes).1 == (if j <= hi {
            code + (hi - j)
        } else {
            code
        }),
        spec_assign_run(j, hi, code, codes).0.len() == codes.len(),
        forall|t: int|
            j <= t < hi ==> #[trigger] spec_assign_run(j, hi, code, codes).0[t] == code + (t - j),
        forall|t: int|
            0 <= t < codes.len() && !(j <= t < hi) ==> #[trigger] spec_assign_run(
                j,
                hi,
                code,
                codes,
            ).0[t] == codes[t],
    decreases hi - j,
{
    if j < hi {
        lemma_assign_run_facts(j + 1, hi, code + 1, codes.update(j, code as u32));
    }
}

/// What code generation from round `i` does, entering with the
/// counter at its canonical base value: within every later round the
/// codes are the base plus the offset into the round, and indices
/// outside those rounds keep their old entries.
#[verifier::rlimit(100)]
#[verifier::spinoff_prover]
pub proof fn lemma_gen_codes_facts(offsets: Seq<u8>, i: int, codes: Seq<u32>)
    requires
        offsets_monotone(offsets),
        offsets.len() == 17,
        codes.len() == 162,
        forall|m: int| 0 <= m < 17 ==> #[trigger] offsets[m] <= 162,
        0 <= i <= 16,
    ensures
        spec_gen_codes(offsets, i, spec_code_base(offsets, i), codes).0.len() == 162,
        forall|m: int, t: int|
            #![trigger spec_gen_codes(offsets, i, spec_code_base(offsets, i), codes).0[t], offsets[m]]
            i <= m < 16 && offsets[m] <= t < offsets[m + 1] ==> spec_gen_codes(
                offsets,
                i,
                spec_code_base(offsets, i),
                codes,
            ).0[t] == spec_code_base(offsets, m) + (t - offsets[m]),
        forall|t: int|
            0 <= t < 162 && !(i < 16 && offsets[i] <= t < offsets[16]) ==> #[trigger] spec_gen_codes(
                offsets,
                i,
                spec_code_base(offsets, i),
                codes,
            ).0[t] == codes[t],
    decreases 16 - i,
{
    if i < 16 {
        let base = spec_code_base(offsets, i);
        lemma_code_base_nonneg(offsets, i);
        lemma_code_base_bound(offsets, i);
        assert(crate::bit_reader::pow2_int(17) == 131072) by {
            reveal_with_fuel(crate::bit_reader::pow2_int, 18);
        }
        crate::bit_reader::lemma_pow2_int_monotone(i + 1, 17);
        lemma_assign_run_facts(offsets[i] as int, offsets[i + 1] as int, base, codes);
        let (codes2, code2) = spec_assign_run(
            offsets[i] as int,
            offsets[i + 1] as int,
            base,
            codes,
        );
        assert(2 * code2 == spec_code_base(offsets, i + 1));
        lemma_gen_codes_facts(offsets, i + 1, codes2);
        assert forall|m: int|
            i <= m < 16 implies offsets[i] <= #[trigger] offsets[m] && offsets[m + 1]
            <= offsets[16] by {
            lemma_offsets_ordered(offsets, i, m);
            lemma_offsets_ordered(offsets, m + 1, 16);
        }
    }
}

/// Cumulative counts are ordered between any two rounds.
pub proof fn lemma_offsets_ordered(offsets: Seq<u8>, a: int, b: int)
    requires
        offsets_monotone(offsets),
        0 <= a <= b <= 16,
    ensures
        offsets[a] <= offsets[b],
    decreases b - a,
{
    if a < b {
        lemma_offsets_ordered(offsets, a + 1, b);
    }
}

/// The counter at a later round dominates everything assigned in an
/// earlier one, scaled by the shifts between them.
pub proof fn lemma_code_base_mono(offsets: Seq<u8>, i1: int, i2: int)
    requires
        offsets_monotone(offsets),
        0 <= i1 < i2 <= 16,
    ensures
        spec_code_base(offsets, i2) >= crate::bit_reader::pow2_int(i2 - i1) * (spec_code_base(
            offsets,
            i1,
        ) + offsets[i1 + 1] - offsets[i1]),
    decreases i2 - i1,
{
    let x = spec_code_base(offsets, i1) + offsets[i1 + 1] - offsets[i1];
    lemma_code_base_nonneg(offsets, i1);
    if i2 == i1 + 1 {
        assert(crate::bit_reader::pow2_int(1) == 2) by {
            reveal_with_fuel(crate::bit_reader::pow2_int, 2);
        }
    } else {
        lemma_code_base_mono(offsets, i1, i2 - 1);
        let p = crate::bit_reader::pow2_int(i2 - 1 - i1);
        crate::bit_reader::lemma_pow2_int_pos(i2 - 1 - i1);
        assert(spec_code_base(offsets, i2) >= 2 * spec_code_base(offsets, i2 - 1));
        assert(2 * (p * x) == (2 * p) * x) by (nonlinear_arith);
        assert(spec_code_base(offsets, i2) >= (2 * p) * x) by (nonlinear_arith)
            requires
                spec_code_base(offsets, i2) >= 2 * spec_code_base(offsets, i2 - 1) && spec_code_base(
                    offsets,
                    i2 - 1,
                ) >= p * x,
        ;
        assert(crate::bit_reader::pow2_int(i2 - i1) == 2 * p);
    }
}

/// Within one code length, canonical codes are strictly increasing.
///
/// For a table whose length counts are cumulative (monotone) and fit
/// the alphabet, any two symbols of the same length take codes in the
/// order of their indices.
pub proof fn lemma_canonical_codes_increasing(
    offsets: Seq<u8>,
    codes0: Seq<u32>,
    i: int,
    j1: int,
    j2: int,
)
    requires
        offsets_monotone(offsets),
        offsets.len() == 17,
        codes0.len() == 162,
        forall|m: int| 0 <= m < 17 ==> #[trigger] offsets[m] <= 162,
        0 <= i < 16,
        offsets[i] <= j1 < j2 < offsets[i + 1],
    ensures
        spec_gen_codes(offsets, 0, 0, codes0).0[j1] < spec_gen_codes(offsets, 0, 0, codes0).0[j2],
{
    lemma_gen_codes_facts(offsets, 0, codes0);
    lemma_code_base_nonneg(offsets, i);
}

/// No canonical code is a prefix of another.
///
/// Two distinct symbols, at lengths `i1 + 1 <= i2 + 1`: either the
/// lengths agree and the codes differ, or the longer code's leading
/// `i1 + 1` bits (its value shifted right by the length difference)
/// exceed the shorter code, so neither is a prefix of the other.
pub proof fn lemma_canonical_codes_prefix_free(
    offsets: Seq<u8>,
    codes0: Seq<u32>,
    i1: int,
    j1: int,
    i2: int,
    j2: int,
)
    requires
        offsets_monotone(offsets),
        offsets.len() == 17,
        codes0.len() == 162,
        forall|m: int| 0 <= m < 17 ==> #[trigger] offsets[m] <= 162,
        0 <= i1 <= i2 < 16,
        offsets[i1] <= j1 < offsets[i1 + 1],
        offsets[i2] <= j2 < offsets[i2 + 1],
        j1 != j2,
    ensures
        i1 == i2 ==> spec_gen_codes(offsets, 0, 0, codes0).0[j1] != spec_gen_codes(
            offsets,
            0,
            0,
            codes0,
        ).0[j2],
        i1 < i2 ==> spec_gen_codes(offsets, 0, 0, codes0).0[j2] as int / crate::bit_reader::pow2_int(
            i2 - i1,
        ) > spec_gen_codes(offsets, 0, 0, codes0).0[j1],
{
    lemma_gen_codes_facts(offsets, 0, codes0);
    lemma_code_base_nonneg(offsets, i1);
    lemma_code_base_nonneg(offsets, i2);
    let r = spec_gen_codes(offsets, 0, 0, codes0).0;
    if i1 < i2 {
        lemma_code_base_mono(offsets, i1, i2);
        let d = crate::bit_reader::pow2_int(i2 - i1);
        crate::bit_reader::lemma_pow2_int_pos(i2 - i1);
        let c1 = spec_code_base(offsets, i1) + (j1 - offsets[i1]);
        let c2 = spec_code_base(offsets, i2) + (j2 - offsets[i2]);
        assert(c2 >= d * (c1 + 1)) by (nonlinear_arith)
            requires
                c2 >= spec_code_base(offsets, i2) && spec_code_base(offsets, i2) >= d
                    * (spec_code_base(offsets, i1) + offsets[i1 + 1] - offsets[i1])
                    && spec_code_base(offsets, i1) + offsets[i1 + 1] - offsets[i1] >= c1 + 1 && d
                    >= 1,
        ;
        assert(c2 / d >= (d * (c1 + 1)) / d) by {
            vstd::arithmetic::div_mod::lemma_div_is_ordered(d * (c1 + 1), c2, d);
        }
        assert((d * (c1 + 1)) / d == c1 + 1) by {
            vstd::arithmetic::div_mod::lemma_div_multiples_vanish(c1 + 1, d);
        }
        assert(r[j2] as int / d > r[j1]);
    }
}

} // verus!
