//! A verified baseline JPEG decoder.
//!
//! The library decodes an ISO/IEC 10918-1 baseline JPEG byte stream
//! (SOF0, 8-bit precision, 4:4:4 sampling, Huffman coding, optional
//! restart markers) into a raster of 8x8 RGB blocks, and reads and
//! writes uncompressed 24-bit BMP rasters.  All stages work on plain
//! bytes and integers; callers do the file and terminal I/O.

use vstd::prelude::*;

pub mod bit_reader;
pub mod bmp;
pub mod color_component;
pub mod drawer;
pub mod header;
pub mod huffman;
pub mod idct;
pub mod jpeg;
pub mod mcu;
pub mod quantization_table;
pub mod segment;

verus! {

/// Why a decode failed.  Every failure is fatal: no partial raster is
/// ever produced.
#[derive(Clone, Copy, Debug, PartialEq, Eq, Structural)]
pub enum DecodeError {
    /// The stream ended before the structure it was read for was complete.
    Io,
    /// The stream does not begin with the SOI marker.
    BadMagic,
    /// A marker outside the baseline repertoire appeared in the header.
    UnknownMarker,
    /// Arithmetic coding, a progressive scan, sampling factors other
    /// than one, or an embedded SOI.
    UnsupportedFeature,
    /// A segment whose declared length, ids or magnitudes are out of range.
    MalformedSegment,
    /// No Huffman code of at most sixteen bits matched the stream.
    HuffmanMiss,
    /// The zig-zag index of an AC run moved past the end of the block.
    AcOverflow,
    /// A marker other than stuffing or a restart inside the entropy stream.
    StrayMarker,
}

/// The serialisation order of 8x8 DCT coefficients: the k-th coefficient of
/// the entropy-coded stream lands at raster position `zigzag_spec(k)`.
pub open spec fn zigzag_spec(k: int) -> int {
    seq![
        0int, 1, 8, 16, 9, 2, 3, 10,
        17, 24, 32, 25, 18, 11, 4, 5,
        12, 19, 26, 33, 40, 48, 41, 34,
        27, 20, 13, 6, 7, 14, 21, 28,
        35, 42, 49, 56, 57, 50, 43, 36,
        29, 22, 15, 23, 30, 37, 44, 51,
        58, 59, 52, 45, 38, 31, 39, 46,
        53, 60, 61, 54, 47, 55, 62, 63,
    ][k]
}

/// Zig-zag serialisation order as an executable table.
pub fn zigzag_map() -> (r: [usize; 64])
    ensures
        forall|k: int| 0 <= k < 64 ==> r[k] == zigzag_spec(k),
{
    let r: [usize; 64] = [
        0, 1, 8, 16, 9, 2, 3, 10,
        17, 24, 32, 25, 18, 11, 4, 5,
        12, 19, 26, 33, 40, 48, 41, 34,
        27, 20, 13, 6, 7, 14, 21, 28,
        35, 42, 49, 56, 57, 50, 43, 36,
        29, 22, 15, 23, 30, 37, 44, 51,
        58, 59, 52, 45, 38, 31, 39, 46,
        53, 60, 61, 54, 47, 55, 62, 63,
    ];
    assert(forall|k: int| 0 <= k < 64 ==> r[k] == zigzag_spec(k));
    r
}

/// Every zig-zag position is a raster position.
pub proof fn lemma_zigzag_in_range(k: int)
    requires
        0 <= k < 64,
    ensures
        0 <= zigzag_spec(k) < 64,
{
}

/// The zig-zag order visits every raster position exactly once: positions
/// of distinct indices are distinct.
pub proof fn lemma_zigzag_injective(j: int, k: int)
    requires
        0 <= j < 64,
        0 <= k < 64,
        zigzag_spec(j) == zigzag_spec(k),
    ensures
        j == k,
{
}

/// The inverse of the zig-zag order: `un_zigzag_spec(p)` is the stream
/// index whose coefficient lands at raster position `p`.
pub open spec fn un_zigzag_spec(p: int) -> int {
    seq![
        0int, 1, 5, 6, 14, 15, 27, 28,
        2, 4, 7, 13, 16, 26, 29, 42,
        3, 8, 12, 17, 25, 30, 41, 43,
        9, 11, 18, 24, 31, 40, 44, 53,
        10, 19, 23, 32, 39, 45, 52, 54,
        20, 22, 33, 38, 46, 51, 55, 60,
        21, 34, 37, 47, 50, 56, 59, 61,
        35, 36, 48, 49, 57, 58, 62, 63,
    ][p]
}

/// De-zig-zag round trip: serialising a raster position and looking the
/// stream index up again yields the position it started from, and the
/// same in the other direction.
pub proof fn lemma_zigzag_round_trip(k: int)
    requires
        0 <= k < 64,
    ensures
        zigzag_spec(un_zigzag_spec(k)) == k,
        un_zigzag_spec(zigzag_spec(k)) == k,
{
}

/// The kind of raster a byte stream holds.
#[derive(Clone, Copy, Debug, PartialEq, Eq, Structural)]
pub enum ImageType {
    JPEG,
    PNG,
    BMP,
}

} // verus!
