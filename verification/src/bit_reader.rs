//! Bit-level access to the JPEG byte stream.
//!
//! One reader serves both phases of a decode.  In the header phase the
//! aligned reads (`read_byte`, `read_word`, `read_double`) consume raw
//! bytes.  Inside the entropy-coded segment `read_bit` fetches bytes
//! through the marker filter: `0xFF 0x00` yields a literal `0xFF`, runs
//! of `0xFF` collapse, restart markers are discarded silently, and any
//! other marker is a stray.

use vstd::prelude::*;

use crate::DecodeError;

verus! {

/// The ghost state of a reader: the index of the next unread byte, how
/// many bits of the byte in flight have been served, and that byte.
pub struct ReaderState {
    pub pos: int,
    pub bit: int,
    pub cur: u8,
}

/// Bit `i` of `b`, most significant first.
pub open spec fn bit_of(b: u8, i: int) -> u8 {
    (b >> ((7 - i) as u8)) & 1
}

/// Where the next entropy-mode data byte lies, and the position after
/// it: stuffed `0xFF 0x00` pairs yield the literal `0xFF`, runs of
/// `0xFF` collapse into their companion, restart markers disappear, any
/// other marker is a stray, and running off the stream is an `Io` error.
pub open spec fn spec_fetch(data: Seq<u8>, pos: int) -> Result<(u8, int), DecodeError>
    decreases data.len() - pos,
{
    if pos < 0 || pos >= data.len() {
        Err(DecodeError::Io)
    } else if data[pos] != 0xFF {
        Ok((data[pos], pos + 1))
    } else if pos + 1 >= data.len() {
        Err(DecodeError::Io)
    } else if data[pos + 1] == 0xFF {
        spec_fetch(data, pos + 1)
    } else if data[pos + 1] == 0x00 {
        Ok((0xFF, pos + 2))
    } else if 0xD0 <= data[pos + 1] <= 0xD7 {
        spec_fetch(data, pos + 2)
    } else {
        Err(DecodeError::StrayMarker)
    }
}

/// One entropy-mode bit: a fresh byte is fetched through the marker
/// filter when no byte is in flight, and its bits are served most
/// significant first.
pub open spec fn spec_read_bit(data: Seq<u8>, st: ReaderState) -> Result<
    (ReaderState, u8),
    DecodeError,
> {
    if st.bit == 0 {
        match spec_fetch(data, st.pos) {
            Ok((b, p)) => Ok((ReaderState { pos: p, bit: 1, cur: b }, bit_of(b, 0))),
            Err(e) => Err(e),
        }
    } else {
        Ok(
            (
                ReaderState { pos: st.pos, bit: (st.bit + 1) % 8, cur: st.cur },
                bit_of(st.cur, st.bit),
            ),
        )
    }
}

/// `n` entropy-mode bits packed big-endian onto `acc`.
pub open spec fn spec_read_bits_acc(data: Seq<u8>, st: ReaderState, n: int, acc: i32) -> Result<
    (ReaderState, i32),
    DecodeError,
>
    decreases n,
{
    if n <= 0 {
        Ok((st, acc))
    } else {
        match spec_read_bit(data, st) {
            Ok((st2, b)) => spec_read_bits_acc(data, st2, n - 1, (2 * acc + b) as i32),
            Err(e) => Err(e),
        }
    }
}

/// `n` entropy-mode bits as a big-endian integer.
pub open spec fn spec_read_bits(data: Seq<u8>, st: ReaderState, n: int) -> Result<
    (ReaderState, i32),
    DecodeError,
> {
    spec_read_bits_acc(data, st, n, 0)
}

/// One aligned byte: raw, no marker filter, and the bit cursor resets.
pub open spec fn spec_read_byte(data: Seq<u8>, st: ReaderState) -> Result<
    (ReaderState, u8),
    DecodeError,
> {
    if 0 <= st.pos < data.len() {
        Ok((ReaderState { pos: st.pos + 1, bit: 0, cur: st.cur }, data[st.pos]))
    } else {
        Err(DecodeError::Io)
    }
}

/// Two aligned bytes as a big-endian 16-bit word.
pub open spec fn spec_read_word(data: Seq<u8>, st: ReaderState) -> Result<
    (ReaderState, u16),
    DecodeError,
> {
    match spec_read_byte(data, st) {
        Ok((st1, hi)) => match spec_read_byte(data, st1) {
            Ok((st2, lo)) => Ok((st2, (256 * hi + lo) as u16)),
            Err(e) => Err(e),
        },
        Err(e) => Err(e),
    }
}

/// Four aligned bytes as a big-endian 32-bit word.
pub open spec fn spec_read_double(data: Seq<u8>, st: ReaderState) -> Result<
    (ReaderState, u32),
    DecodeError,
> {
    match spec_read_word(data, st) {
        Ok((st1, hi)) => match spec_read_word(data, st1) {
            Ok((st2, lo)) => Ok((st2, (0x10000 * hi + lo) as u32)),
            Err(e) => Err(e),
        },
        Err(e) => Err(e),
    }
}

/// A reader over the whole input, with a byte cursor and a bit cursor.
pub struct BitReader {
    pub data: Vec<u8>,
    pub pos: usize,
    pub bit: usize,
    pub cur: u8,
}

impl BitReader {
    /// The bytes the reader was built over.
    pub open spec fn bytes(self) -> Seq<u8> {
        self.data@
    }

    /// The reader's cursor as ghost state.
    pub open spec fn st(self) -> ReaderState {
        ReaderState { pos: self.pos as int, bit: self.bit as int, cur: self.cur }
    }

    /// The cursors stay inside the stream and inside a byte.
    pub open spec fn wf(self) -> bool {
        self.bit < 8 && self.pos <= self.data.len()
    }

    pub fn new(data: Vec<u8>) -> (r: BitReader)
        ensures
            r.wf(),
            r.bytes() == data@,
            r.st() == (ReaderState { pos: 0, bit: 0, cur: 0u8 }),
    {
        BitReader { data, pos: 0, bit: 0, cur: 0 }
    }

    /// Fetches the next entropy-mode data byte through the marker filter.
    fn fetch(&mut self) -> (r: Result<u8, DecodeError>)
        requires
            old(self).wf(),
        ensures
            final(self).wf(),
            final(self).bytes() == old(self).bytes(),
            final(self).st().bit == old(self).st().bit,
            final(self).st().cur == old(self).st().cur,
            match spec_fetch(old(self).bytes(), old(self).st().pos) {
                Ok((b, p)) => r == Ok::<u8, DecodeError>(b) && final(self).st().pos == p,
                Err(e) => r == Err::<u8, DecodeError>(e) && final(self).st().pos == old(self).st().pos,
            },
    {
        let ghost target = spec_fetch(self.bytes(), self.st().pos);
        let len: usize = self.data.len();
        let start: usize = self.pos;
        let mut p: usize = start;
        loop
            invariant
                self.wf(),
                start <= p <= len,
                len == self.data.len(),
                self.data@ == old(self).data@,
                self.pos == old(self).pos,
                self.bit == old(self).bit,
                self.cur == old(self).cur,
                spec_fetch(old(self).bytes(), old(self).st().pos) == target,
                spec_fetch(self.bytes(), p as int) == target,
            decreases len - p,
        {
            if p >= len {
                return Err(DecodeError::Io);
            }
            let b: u8 = self.data[p];
            if b != 0xFF {
                self.pos = p + 1;
                return Ok(b);
            }
            if p + 1 >= len {
                return Err(DecodeError::Io);
            }
            let n: u8 = self.data[p + 1];
            if n == 0xFF {
                p = p + 1;
            } else if n == 0x00 {
                self.pos = p + 2;
                return Ok(0xFF);
            } else if 0xD0 <= n && n <= 0xD7 {
                p = p + 2;
            } else {
                return Err(DecodeError::StrayMarker);
            }
        }
    }

    /// One bit of the entropy-coded segment, after byte-stuffing removal
    /// and restart-marker skipping.
    pub fn read_bit(&mut self) -> (r: Result<u8, DecodeError>)
        requires
            old(self).wf(),
        ensures
            final(self).wf(),
            final(self).bytes() == old(self).bytes(),
            match spec_read_bit(old(self).bytes(), old(self).st()) {
                Ok((st2, b)) => r == Ok::<u8, DecodeError>(b) && b <= 1 && final(self).st() == st2,
                Err(e) => r == Err::<u8, DecodeError>(e),
            },
    {
        if self.bit == 0 {
            match self.fetch() {
                Ok(b) => {
                    self.cur = b;
                    self.bit = 1;
                    let r: u8 = (b >> 7u8) & 1;
                    assert(r == bit_of(b, 0));
                    assert((b >> 7u8) & 1 <= 1) by (bit_vector);
                    Ok(r)
                },
                Err(e) => Err(e),
            }
        } else {
            let i: usize = self.bit;
            let r: u8 = (self.cur >> ((7 - i) as u8)) & 1;
            assert(r == bit_of(self.cur, i as int));
            assert(forall|x: u8, s: u8| #[trigger] ((x >> s) & 1) <= 1) by (bit_vector);
            self.bit = (self.bit + 1) % 8;
            Ok(r)
        }
    }

    /// `length` entropy-mode bits packed big-endian into an integer.
    pub fn read_bits(&mut self, length: usize) -> (r: Result<i32, DecodeError>)
        requires
            old(self).wf(),
            length <= 16,
        ensures
            final(self).wf(),
            final(self).bytes() == old(self).bytes(),
            match spec_read_bits(old(self).bytes(), old(self).st(), length as int) {
                Ok((st2, v)) => r == Ok::<i32, DecodeError>(v) && final(self).st() == st2 && 0 <= v
                    < pow2_int(length as int),
                Err(e) => r == Err::<i32, DecodeError>(e),
            },
    {
        let ghost target = spec_read_bits(self.bytes(), self.st(), length as int);
        let mut bits: i32 = 0;
        let mut i: usize = 0;
        while i < length
            invariant
                self.wf(),
                i <= length,
                length <= 16,
                self.bytes() == old(self).bytes(),
                0 <= bits < pow2_int(i as int),
                spec_read_bits(old(self).bytes(), old(self).st(), length as int) == target,
                spec_read_bits_acc(self.bytes(), self.st(), (length - i) as int, bits) == target,
            decreases length - i,
        {
            proof {
                lemma_pow2_int_monotone(i as int, 15);
                assert(pow2_int(15) == 32768) by {
                    reveal_with_fuel(pow2_int, 16);
                }
            }
            match self.read_bit() {
                Ok(b) => {
                    bits = 2 * bits + b as i32;
                },
                Err(e) => {
                    return Err(e);
                },
            }
            i = i + 1;
        }
        Ok(bits)
    }

    /// One raw byte; the bit cursor resets first.
    pub fn read_byte(&mut self) -> (r: Result<u8, DecodeError>)
        requires
            old(self).wf(),
        ensures
            final(self).wf(),
            final(self).bytes() == old(self).bytes(),
            match spec_read_byte(old(self).bytes(), old(self).st()) {
                Ok((st2, b)) => r == Ok::<u8, DecodeError>(b) && final(self).st() == st2,
                Err(e) => r == Err::<u8, DecodeError>(e),
            },
    {
        self.bit = 0;
        if self.pos < self.data.len() {
            let b: u8 = self.data[self.pos];
            self.pos = self.pos + 1;
            Ok(b)
        } else {
            Err(DecodeError::Io)
        }
    }

    /// Two raw bytes as a big-endian word; the bit cursor resets first.
    pub fn read_word(&mut self) -> (r: Result<u16, DecodeError>)
        requires
            old(self).wf(),
        ensures
            final(self).wf(),
            final(self).bytes() == old(self).bytes(),
            match spec_read_word(old(self).bytes(), old(self).st()) {
                Ok((st2, w)) => r == Ok::<u16, DecodeError>(w) && final(self).st() == st2,
                Err(e) => r == Err::<u16, DecodeError>(e),
            },
    {
        let hi: u8 = match self.read_byte() {
            Ok(b) => b,
            Err(e) => {
                return Err(e);
            },
        };
        let lo: u8 = match self.read_byte() {
            Ok(b) => b,
            Err(e) => {
                return Err(e);
            },
        };
        Ok(256 * (hi as u16) + (lo as u16))
    }

    /// Four raw bytes as a big-endian double word.
    pub fn read_double(&mut self) -> (r: Result<u32, DecodeError>)
        requires
            old(self).wf(),
        ensures
            final(self).wf(),
            final(self).bytes() == old(self).bytes(),
            match spec_read_double(old(self).bytes(), old(self).st()) {
                Ok((st2, w)) => r == Ok::<u32, DecodeError>(w) && final(self).st() == st2,
                Err(e) => r == Err::<u32, DecodeError>(e),
            },
    {
        let hi: u16 = match self.read_word() {
            Ok(b) => b,
            Err(e) => {
                return Err(e);
            },
        };
        let lo: u16 = match self.read_word() {
            Ok(b) => b,
            Err(e) => {
                return Err(e);
            },
        };
        Ok(0x10000 * (hi as u32) + (lo as u32))
    }

    /// Discards the bits still unserved in the byte in flight; the next
    /// `read_bit` starts a fresh byte.  Called at restart boundaries.
    pub fn align(&mut self)
        requires
            old(self).wf(),
        ensures
            final(self).wf(),
            final(self).bytes() == old(self).bytes(),
            final(self).st() == (ReaderState {
                pos: old(self).st().pos,
                bit: 0,
                cur: old(self).st().cur,
            }),
    {
        self.bit = 0;
    }
}

/// `2^n` for small non-negative `n`, and `0` elsewhere: the number of
/// values a bit field of width `n` can take.
pub open spec fn pow2_int(n: int) -> int
    decreases n,
{
    if n <= 0 {
        1
    } else {
        2 * pow2_int(n - 1)
    }
}

pub proof fn lemma_pow2_int_monotone(a: int, b: int)
    requires
        a <= b,
    ensures
        pow2_int(a) <= pow2_int(b),
        pow2_int(a) >= 1,
    decreases b - a,
{
    if a < b {
        lemma_pow2_int_monotone(a, b - 1);
    } else {
        lemma_pow2_int_pos(a);
    }
}

pub proof fn lemma_pow2_int_pos(n: int)
    ensures
        pow2_int(n) >= 1,
    decreases n,
{
    if n > 0 {
        lemma_pow2_int_pos(n - 1);
    }
}


/// `2^n` as a machine integer, for field widths up to sixteen bits.
pub fn pow2_i32(n: usize) -> (r: i32)
    requires
        n <= 16,
    ensures
        r == pow2_int(n as int),
{
    let mut r: i32 = 1;
    let mut i: usize = 0;
    while i < n
        invariant
            i <= n,
            n <= 16,
            1 <= r,
            r == pow2_int(i as int),
            r <= 65536,
        decreases n - i,
    {
        proof {
            lemma_pow2_int_monotone(i as int + 1, 16);
            assert(pow2_int(16) == 65536) by {
                reveal_with_fuel(pow2_int, 17);
            }
        }
        r = r * 2;
        i = i + 1;
    }
    r
}


/// A restart marker is invisible to the entropy reader: fetching a
/// data byte at a marker's `0xFF` fetches the byte after the marker
/// instead.  Together with `align`, this is why a stream with restart
/// markers decodes like the same stream without them once the DC
/// predictors hold nothing.
pub proof fn lemma_restart_marker_invisible(data: Seq<u8>, pos: int)
    requires
        0 <= pos,
        pos + 1 < data.len(),
        data[pos] == 0xFF,
        0xD0 <= data[pos + 1] <= 0xD7,
    ensures
        spec_fetch(data, pos) == spec_fetch(data, pos + 2),
{
}

} // verus!
