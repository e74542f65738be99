//! Locality-preserving maps between `(u32, u32)` and `u64`.
//!
//! The Z-order interleaves the bits of the pair. The Hilbert curve visits the
//! four quadrants of each square in turn, rotating and reflecting each
//! sub-square so that consecutive indexes stay adjacent.
use vstd::prelude::*;

verus! {

/// Bit `b` of `x` goes to bit `2b` and bit `b` of `y` to bit `2b + 1`, for
/// the low eight bits of each.
pub open spec fn interleave_byte(x: u64, y: u64) -> u64 {
    (x & 1) | ((y & 1) << 1u64) | ((x & 2) << 1u64) | ((y & 2) << 2u64) | ((x & 4) << 2u64) | ((
    y & 4) << 3u64) | ((x & 8) << 3u64) | ((y & 8) << 4u64) | ((x & 16) << 4u64) | ((y & 16)
        << 5u64) | ((x & 32) << 5u64) | ((y & 32) << 6u64) | ((x & 64) << 6u64) | ((y & 64)
        << 7u64) | ((x & 128) << 7u64) | ((y & 128) << 8u64)
}

/// The low `b` bits set.
pub open spec fn low_mask(b: u64) -> u64 {
    ((1u64 << b) - 1) as u64
}

/// The even-numbered bits among the low sixteen bits of `z`, packed.
pub open spec fn even_bits(z: u64) -> u64 {
    (z & 1) | ((z >> 1u64) & 2) | ((z >> 2u64) & 4) | ((z >> 3u64) & 8) | ((z >> 4u64) & 16) | ((
    z >> 5u64) & 32) | ((z >> 6u64) & 64) | ((z >> 7u64) & 128)
}

/// The odd-numbered bits among the low sixteen bits of `z`, packed.
pub open spec fn odd_bits(z: u64) -> u64 {
    even_bits(z >> 1u64)
}

/// Byte `i` of `x`.
pub open spec fn byte_of(x: u32, i: u64) -> u64 {
    ((x as u64) >> (8 * i)) & 255
}

/// The Z-order index of `(x, y)`: bit `b` of `x` at `2b`, bit `b` of `y` at
/// `2b + 1`, taken byte pair by byte pair.
pub open spec fn z_index(x: u32, y: u32) -> u64 {
    interleave_byte(byte_of(x, 0), byte_of(y, 0)) | (interleave_byte(byte_of(x, 1), byte_of(y, 1))
        << 16u64) | (interleave_byte(byte_of(x, 2), byte_of(y, 2)) << 32u64) | (interleave_byte(
        byte_of(x, 3),
        byte_of(y, 3),
    ) << 48u64)
}

/// The 16-bit chunk `i` of `t`.
pub open spec fn chunk_of(t: u64, i: u64) -> u64 {
    (t >> (16 * i)) & 0xFFFF
}

/// The pair whose Z-order index is `t`.
pub open spec fn z_coords(t: u64) -> (u32, u32) {
    (
        (even_bits(chunk_of(t, 0)) | (even_bits(chunk_of(t, 1)) << 8u64) | (even_bits(
            chunk_of(t, 2),
        ) << 16u64) | (even_bits(chunk_of(t, 3)) << 24u64)) as u32,
        (odd_bits(chunk_of(t, 0)) | (odd_bits(chunk_of(t, 1)) << 8u64) | (odd_bits(chunk_of(t, 2))
            << 16u64) | (odd_bits(chunk_of(t, 3)) << 24u64)) as u32,
    )
}

proof fn lemma_interleave_inverse(x: u64, y: u64)
    by (bit_vector)
    requires
        x < 256,
        y < 256,
    ensures
        interleave_byte(x, y) < 0x1_0000,
        even_bits(interleave_byte(x, y)) == x,
        odd_bits(interleave_byte(x, y)) == y,
{
}

proof fn lemma_split_inverse(z: u64)
    by (bit_vector)
    requires
        z < 0x1_0000,
    ensures
        even_bits(z) < 256,
        odd_bits(z) < 256,
        interleave_byte(even_bits(z), odd_bits(z)) == z,
{
}

proof fn lemma_interleave_prefix(x: u64, y: u64, b: u64)
    by (bit_vector)
    requires
        x < 256,
        y < 256,
        b < 8,
    ensures
        interleave_byte(x & low_mask((b + 1) as u64), y & low_mask((b + 1) as u64)) == interleave_byte(
            x & low_mask(b),
            y & low_mask(b),
        ) + (((x >> b) & 1) << ((2 * b) as u64)) + (((y >> b) & 1) << ((2 * b + 1) as u64)),
        interleave_byte(x & low_mask(b), y & low_mask(b)) < (1u64 << ((2 * b) as u64)),
{
}

proof fn lemma_chunks(a0: u64, a1: u64, a2: u64, a3: u64)
    by (bit_vector)
    requires
        a0 < 0x1_0000,
        a1 < 0x1_0000,
        a2 < 0x1_0000,
        a3 < 0x1_0000,
    ensures
        chunk_of(a0 | (a1 << 16u64) | (a2 << 32u64) | (a3 << 48u64), 0) == a0,
        chunk_of(a0 | (a1 << 16u64) | (a2 << 32u64) | (a3 << 48u64), 1) == a1,
        chunk_of(a0 | (a1 << 16u64) | (a2 << 32u64) | (a3 << 48u64), 2) == a2,
        chunk_of(a0 | (a1 << 16u64) | (a2 << 32u64) | (a3 << 48u64), 3) == a3,
{
}

proof fn lemma_bytes(x: u32)
    by (bit_vector)
    ensures
        (byte_of(x, 0) | (byte_of(x, 1) << 8u64) | (byte_of(x, 2) << 16u64) | (byte_of(x, 3)
            << 24u64)) as u32 == x,
        byte_of(x, 0) < 256,
        byte_of(x, 1) < 256,
        byte_of(x, 2) < 256,
        byte_of(x, 3) < 256,
{
}

proof fn lemma_rebuild(t: u64)
    by (bit_vector)
    ensures
        chunk_of(t, 0) | (chunk_of(t, 1) << 16u64) | (chunk_of(t, 2) << 32u64) | (chunk_of(t, 3)
            << 48u64) == t,
        chunk_of(t, 0) < 0x1_0000,
        chunk_of(t, 1) < 0x1_0000,
        chunk_of(t, 2) < 0x1_0000,
        chunk_of(t, 3) < 0x1_0000,
{
}

proof fn lemma_pack_bytes(b0: u64, b1: u64, b2: u64, b3: u64)
    by (bit_vector)
    requires
        b0 < 256,
        b1 < 256,
        b2 < 256,
        b3 < 256,
    ensures
        byte_of((b0 | (b1 << 8u64) | (b2 << 16u64) | (b3 << 24u64)) as u32, 0) == b0,
        byte_of((b0 | (b1 << 8u64) | (b2 << 16u64) | (b3 << 24u64)) as u32, 1) == b1,
        byte_of((b0 | (b1 << 8u64) | (b2 << 16u64) | (b3 << 24u64)) as u32, 2) == b2,
        byte_of((b0 | (b1 << 8u64) | (b2 << 16u64) | (b3 << 24u64)) as u32, 3) == b3,
{
}

proof fn lemma_byte_parts(v: u32)
    by (bit_vector)
    ensures
        byte_of(v, 0) == (v as u64) & 255,
        byte_of(v, 1) == ((v as u64) >> 8u64) & 255,
        byte_of(v, 2) == ((v as u64) >> 16u64) & 255,
        byte_of(v, 3) == ((v as u64) >> 24u64) & 255,
        (v as u64) & 255 < 256,
        ((v as u64) >> 8u64) & 255 < 256,
        ((v as u64) >> 16u64) & 255 < 256,
        ((v as u64) >> 24u64) & 255 < 256,
{
}

proof fn lemma_chunk_parts(t: u64)
    by (bit_vector)
    ensures
        chunk_of(t, 0) == t & 0xFFFF,
        chunk_of(t, 1) == (t >> 16u64) & 0xFFFF,
        chunk_of(t, 2) == (t >> 32u64) & 0xFFFF,
        chunk_of(t, 3) == (t >> 48u64) & 0xFFFF,
{
}

/// The Z-order index and its inverse are mutual inverses over the whole
/// domain: every pair comes back from its index, and every index from its pair.
pub proof fn lemma_z_bijection(x: u32, y: u32, t: u64)
    ensures
        z_coords(z_index(x, y)) == (x, y),
        z_index(z_coords(t).0, z_coords(t).1) == t,
{
    lemma_bytes(x);
    lemma_bytes(y);
    let a0 = interleave_byte(byte_of(x, 0), byte_of(y, 0));
    let a1 = interleave_byte(byte_of(x, 1), byte_of(y, 1));
    let a2 = interleave_byte(byte_of(x, 2), byte_of(y, 2));
    let a3 = interleave_byte(byte_of(x, 3), byte_of(y, 3));
    lemma_interleave_inverse(byte_of(x, 0), byte_of(y, 0));
    lemma_interleave_inverse(byte_of(x, 1), byte_of(y, 1));
    lemma_interleave_inverse(byte_of(x, 2), byte_of(y, 2));
    lemma_interleave_inverse(byte_of(x, 3), byte_of(y, 3));
    lemma_chunks(a0, a1, a2, a3);

    lemma_rebuild(t);
    let c0 = chunk_of(t, 0);
    let c1 = chunk_of(t, 1);
    let c2 = chunk_of(t, 2);
    let c3 = chunk_of(t, 3);
    lemma_split_inverse(c0);
    lemma_split_inverse(c1);
    lemma_split_inverse(c2);
    lemma_split_inverse(c3);
    lemma_pack_bytes(even_bits(c0), even_bits(c1), even_bits(c2), even_bits(c3));
    lemma_pack_bytes(odd_bits(c0), odd_bits(c1), odd_bits(c2), odd_bits(c3));
}

/// Map between `(u32, u32)` and `u64`.
pub trait Tangle {
    /// The tables that the map reads are well built.
    spec fn inv(&self) -> bool;

    /// The index that the map gives a pair.
    spec fn index_of(&self, pair: (u32, u32)) -> u64;

    /// The pair that the map gives an index.
    spec fn coords_of(&self, tangle: u64) -> (u32, u32);

    /// Maps a `(u32, u32)` pair to a `u64`.
    fn entangle(&self, pair: (u32, u32)) -> (r: u64)
        requires
            self.inv(),
        ensures
            r == self.index_of(pair),
    ;

    /// Maps a `u64` to a `(u32, u32)` pair.
    fn detangle(&self, tangle: u64) -> (r: (u32, u32))
        requires
            self.inv(),
        ensures
            r == self.coords_of(tangle),
    ;
}

/// Interleaves the low eight bits of `x` and `y`, bit by bit.
fn interleave(x: u64, y: u64) -> (r: u64)
    requires
        x < 256,
        y < 256,
    ensures
        r == interleave_byte(x, y),
        r < 0x1_0000,
{
    let mut z: u64 = 0;
    let mut b: u64 = 0;
    assert(interleave_byte(x & low_mask(0), y & low_mask(0)) == 0) by (bit_vector);
    while b < 8
        invariant
            b <= 8,
            x < 256,
            y < 256,
            z == interleave_byte(x & low_mask(b), y & low_mask(b)),
        decreases 8 - b,
    {
        proof {
            lemma_interleave_prefix(x, y, b);
        }
        z = z + (((x >> b) & 1) << (2 * b));
        z = z + (((y >> b) & 1) << (2 * b + 1));
        b = b + 1;
    }
    assert(x & low_mask(8) == x && y & low_mask(8) == y) by (bit_vector)
        requires
            x < 256,
            y < 256,
    ;
    proof {
        lemma_interleave_inverse(x, y);
    }
    z
}

/// Tangles u32 pairs by interleaving their bits.
pub struct ZOrder {
    entangle: Vec<u16>,
    detangle: Vec<(u8, u8)>,
}

impl ZOrder {
    /// Each table entry holds the interleaving of its byte pair, or its inverse.
    pub closed spec fn wf(&self) -> bool {
        &&& self.entangle@.len() == 0x1_0000
        &&& self.detangle@.len() == 0x1_0000
        &&& forall|k: int|
            0 <= k < 0x1_0000 ==> #[trigger] self.entangle@[k] == interleave_byte(
                (k / 256) as u64,
                (k % 256) as u64,
            ) as u16
        &&& forall|z: u64|
            z < 0x1_0000 ==> #[trigger] self.detangle@[z as int] == (
                even_bits(z) as u8,
                odd_bits(z) as u8,
            )
    }

    /// Builds the interleaving tables for every pair of bytes.
    pub fn new() -> (r: ZOrder)
        ensures
            r.wf(),
    {
        let mut entangle: Vec<u16> = vec![0u16; 65536];
        let mut detangle: Vec<(u8, u8)> = vec![(0u8, 0u8); 65536];
        let mut x: u64 = 0;
        while x < 256
            invariant
                x <= 256,
                entangle@.len() == 0x1_0000,
                detangle@.len() == 0x1_0000,
                forall|k: int|
                    0 <= k < 256 * x ==> #[trigger] entangle@[k] == interleave_byte(
                        (k / 256) as u64,
                        (k % 256) as u64,
                    ) as u16,
                forall|a: u64, b: u64|
                    a < x && b < 256 ==> detangle@[#[trigger] interleave_byte(a, b) as int] == (
                        a as u8,
                        b as u8,
                    ),
            decreases 256 - x,
        {
            let mut y: u64 = 0;
            while y < 256
                invariant
                    x < 256,
                    y <= 256,
                    entangle@.len() == 0x1_0000,
                    detangle@.len() == 0x1_0000,
                    forall|k: int|
                        0 <= k < 256 * x + y ==> #[trigger] entangle@[k] == interleave_byte(
                            (k / 256) as u64,
                            (k % 256) as u64,
                        ) as u16,
                    forall|a: u64, b: u64|
                        (a < x || (a == x && b < y)) && b < 256 ==> detangle@[
                            #[trigger] interleave_byte(a, b) as int] == (a as u8, b as u8),
                decreases 256 - y,
            {
                let z = interleave(x, y);
                proof {
                    lemma_interleave_inverse(x, y);
                    assert forall|a: u64, b: u64|
                        a < 256 && b < 256 && interleave_byte(a, b) == z implies a == x && b
                        == y by {
                        lemma_interleave_inverse(a, b);
                    }
                }
                detangle.set(z as usize, (x as u8, y as u8));
                entangle.set((x * 256 + y) as usize, z as u16);
                proof {
                    let k = 256 * x + y;
                    assert(k / 256 == x && k % 256 == y);
                    assert forall|a: u64, b: u64|
                        (a < x || (a == x && b <= y)) && b < 256 implies detangle@[
                        #[trigger] interleave_byte(a, b) as int] == (a as u8, b as u8) by {
                        lemma_interleave_inverse(a, b);
                    }
                }
                y = y + 1;
            }
            x = x + 1;
        }
        proof {
            assert forall|z: u64| z < 0x1_0000 implies #[trigger] detangle@[z as int] == (
                even_bits(z) as u8,
                odd_bits(z) as u8,
            ) by {
                lemma_split_inverse(z);
                assert(detangle@[interleave_byte(even_bits(z), odd_bits(z)) as int] == (
                    even_bits(z) as u8,
                    odd_bits(z) as u8,
                ));
            }
        }
        ZOrder { entangle, detangle }
    }
}

impl Tangle for ZOrder {
    open spec fn inv(&self) -> bool {
        self.wf()
    }

    open spec fn index_of(&self, pair: (u32, u32)) -> u64 {
        z_index(pair.0, pair.1)
    }

    open spec fn coords_of(&self, tangle: u64) -> (u32, u32) {
        z_coords(tangle)
    }

    /// Interleaves one byte pair per table lookup.
    fn entangle(&self, pair: (u32, u32)) -> (r: u64) {
        let x = pair.0 as u64;
        let y = pair.1 as u64;
        proof {
            lemma_bytes(pair.0);
            lemma_bytes(pair.1);
            lemma_byte_parts(pair.0);
            lemma_byte_parts(pair.1);
        }
        let e0 = self.entangle[((x & 255) * 256 + (y & 255)) as usize] as u64;
        let e1 = self.entangle[(((x >> 8) & 255) * 256 + ((y >> 8) & 255)) as usize] as u64;
        let e2 = self.entangle[(((x >> 16) & 255) * 256 + ((y >> 16) & 255)) as usize] as u64;
        let e3 = self.entangle[(((x >> 24) & 255) * 256 + ((y >> 24) & 255)) as usize] as u64;
        proof {
            lemma_interleave_inverse(byte_of(pair.0, 0), byte_of(pair.1, 0));
            lemma_interleave_inverse(byte_of(pair.0, 1), byte_of(pair.1, 1));
            lemma_interleave_inverse(byte_of(pair.0, 2), byte_of(pair.1, 2));
            lemma_interleave_inverse(byte_of(pair.0, 3), byte_of(pair.1, 3));
        }
        e0 | (e1 << 16) | (e2 << 32) | (e3 << 48)
    }

    /// Splits the index into four 16-bit chunks and looks each up.
    fn detangle(&self, tangle: u64) -> (r: (u32, u32)) {
        proof {
            lemma_rebuild(tangle);
            lemma_chunk_parts(tangle);
        }
        let (x0, y0) = self.detangle[(tangle & 0xFFFF) as usize];
        let (x1, y1) = self.detangle[((tangle >> 16) & 0xFFFF) as usize];
        let (x2, y2) = self.detangle[((tangle >> 32) & 0xFFFF) as usize];
        let (x3, y3) = self.detangle[((tangle >> 48) & 0xFFFF) as usize];
        proof {
            lemma_split_inverse(chunk_of(tangle, 0));
            lemma_split_inverse(chunk_of(tangle, 1));
            lemma_split_inverse(chunk_of(tangle, 2));
            lemma_split_inverse(chunk_of(tangle, 3));
        }
        (
            ((x0 as u64) | ((x1 as u64) << 8) | ((x2 as u64) << 16) | ((x3 as u64) << 24)) as u32,
            ((y0 as u64) | ((y1 as u64) << 8) | ((y2 as u64) << 16) | ((y3 as u64) << 24)) as u32,
        )
    }
}


/// The sub-square transform at bit `s`: in the quadrant with `rx == 1` and
/// `ry == 0` both coordinates are reflected within the low `s` bits and
/// swapped; in the quadrant with `rx == 0` and `ry == 0` they are swapped.
pub open spec fn rotate(s: u32, pair: (u32, u32), rx: u32, ry: u32) -> (u32, u32) {
    let off = ((1u32 << s) - 1) as u32;
    if ry == 0 {
        if rx != 0 {
            ((off - (pair.1 & off)) as u32, (off - (pair.0 & off)) as u32)
        } else {
            (pair.1, pair.0)
        }
    } else {
        pair
    }
}

/// The quadrant code of bits `rx` and `ry`: 0, 1, 3, 2 in curve order.
pub open spec fn quadrant(rx: u32, ry: u32) -> u64 {
    (((3 * rx) as u32) ^ ry) as u64
}

/// The Hilbert index of the low `k` bits of `pair`, from bit `k - 1` down.
pub open spec fn hilbert_bits(pair: (u32, u32), k: nat) -> u64
    decreases k,
{
    if k == 0 || k > 32 {
        0
    } else {
        let s = (k - 1) as u32;
        let rx = (pair.0 >> s) & 1;
        let ry = (pair.1 >> s) & 1;
        (quadrant(rx, ry) << ((2 * s) as u64)) | hilbert_bits(rotate(s, pair, rx, ry), (k - 1) as nat)
    }
}

/// The Hilbert index of `(x, y)` on the 2^32 by 2^32 square.
pub open spec fn hilbert_index(pair: (u32, u32)) -> u64 {
    hilbert_bits(pair, 32)
}

/// The pair given by the low `n` quadrant codes of `t`, from the lowest up.
pub open spec fn hilbert_pair_bits(t: u64, n: nat) -> (u32, u32)
    decreases n,
{
    if n == 0 || n > 32 {
        (0, 0)
    } else {
        let s = (n - 1) as u32;
        let q = ((t >> ((2 * s) as u64)) & 3) as u32;
        let rx = (q >> 1u32) & 1;
        let ry = (q ^ rx) & 1;
        let p = rotate(s, hilbert_pair_bits(t, (n - 1) as nat), rx, ry);
        (p.0 | (rx << s), p.1 | (ry << s))
    }
}

/// The pair whose Hilbert index is `t`.
pub open spec fn hilbert_coords(t: u64) -> (u32, u32) {
    hilbert_pair_bits(t, 32)
}

proof fn lemma_and_le(v: u32, m: u32)
    by (bit_vector)
    ensures
        v & m <= m,
{
}

proof fn lemma_or_zero(a: u64)
    by (bit_vector)
    ensures
        a | 0 == a,
        0 | a == a,
{
}

proof fn lemma_pow_positive(s: u32)
    by (bit_vector)
    requires
        s < 32,
    ensures
        1u32 << s >= 1,
{
}

proof fn lemma_or_assoc(a: u64, b: u64, c: u64)
    by (bit_vector)
    ensures
        (a | b) | c == a | (b | c),
{
}

/// Tangles u32 pairs along a Hilbert space-filling curve.
pub struct Hilbert {
    /// `entangle[256 * x_byte + y_byte]`: the top 16 bits of the index.
    entangle: Vec<u16>,
    /// `detangle[chunk]`: the byte pair that gives a 16-bit chunk.
    detangle: Vec<(u8, u8)>,
    /// Bits 44 to 47 of the probe index, keyed as `entangle`: the transform
    /// that the remaining bytes undergo.
    rotation: Vec<u8>,
}

impl Hilbert {
    /// Each table entry holds the 8-level index, pair or transform of its key.
    pub closed spec fn wf(&self) -> bool {
        &&& self.entangle@.len() == 0x1_0000
        &&& self.detangle@.len() == 0x1_0000
        &&& self.rotation@.len() == 0x1_0000
        &&& forall|k: int|
            0 <= k < 0x1_0000 ==> #[trigger] self.entangle@[k] as u64 == hilbert_bits(
                ((k / 256) as u32, (k % 256) as u32),
                8,
            )
        &&& forall|k: int|
            0 <= k < 0x1_0000 ==> #[trigger] self.rotation@[k] as u64 == rotation_code(
                transform_bits(((k / 256) as u32, (k % 256) as u32), 8),
            )
        &&& forall|c: u64|
            c < 0x1_0000 ==> #[trigger] self.detangle@[c as int] == (
                hilbert_pair_bits(c, 8).0 as u8,
                hilbert_pair_bits(c, 8).1 as u8,
            )
    }

    /// Builds the tables from the bit-wise algorithm, for every byte pair
    /// placed at the top of a coordinate with a probe bit below `y`'s.
    pub fn new() -> (r: Hilbert)
        ensures
            r.wf(),
    {
        let mut entangle: Vec<u16> = Vec::new();
        let mut detangle: Vec<(u8, u8)> = vec![(0u8, 0u8); 65536];
        let mut rotation: Vec<u8> = Vec::new();
        let mut x: u32 = 0;
        while x < 256
            invariant
                x <= 256,
                entangle@.len() == 256 * x,
                rotation@.len() == 256 * x,
                detangle@.len() == 0x1_0000,
                forall|k: int|
                    0 <= k < 256 * x ==> #[trigger] entangle@[k] as u64 == hilbert_bits(
                        ((k / 256) as u32, (k % 256) as u32),
                        8,
                    ),
                forall|k: int|
                    0 <= k < 256 * x ==> #[trigger] rotation@[k] as u64 == rotation_code(
                        transform_bits(((k / 256) as u32, (k % 256) as u32), 8),
                    ),
                forall|a: u32, b: u32|
                    a < x && b < 256 ==> detangle@[#[trigger] hilbert_bits((a, b), 8) as int]
                        == (a as u8, b as u8),
            decreases 256 - x,
        {
            let mut y: u32 = 0;
            while y < 256
                invariant
                    x < 256,
                    y <= 256,
                    entangle@.len() == 256 * x + y,
                    rotation@.len() == 256 * x + y,
                    detangle@.len() == 0x1_0000,
                    forall|k: int|
                        0 <= k < 256 * x + y ==> #[trigger] entangle@[k] as u64 == hilbert_bits(
                            ((k / 256) as u32, (k % 256) as u32),
                            8,
                        ),
                    forall|k: int|
                        0 <= k < 256 * x + y ==> #[trigger] rotation@[k] as u64 == rotation_code(
                            transform_bits(((k / 256) as u32, (k % 256) as u32), 8),
                        ),
                    forall|a: u32, b: u32|
                        (a < x || (a == x && b < y)) && b < 256 ==> detangle@[
                            #[trigger] hilbert_bits((a, b), 8) as int] == (a as u8, b as u8),
                decreases 256 - y,
            {
                let entangled = Hilbert::bit_entangle((x << 24, (y << 24) | (1u32 << 23)));
                let top = entangled >> 48;
                proof {
                    lemma_probe(x, y);
                    lemma_top_bits(entangled);
                    let k = 256 * x + y;
                    assert(k / 256 == x && k % 256 == y);
                }
                entangle.push(top as u16);
                detangle.set(top as usize, (x as u8, y as u8));
                rotation.push(((entangled >> 44) & 0x0F) as u8);
                proof {
                    assert forall|a: u32, b: u32|
                        (a < x || (a == x && b <= y)) && b < 256 implies detangle@[
                        #[trigger] hilbert_bits((a, b), 8) as int] == (a as u8, b as u8) by {
                        lemma_index_bound((a, b), 8);
                        lemma_small(a, 0);
                        lemma_small(b, 0);
                        lemma_small(x, 0);
                        lemma_small(y, 0);
                        lemma_coords_of_index((a, b), 8);
                        lemma_coords_of_index((x, y), 8);
                        lemma_small(a, hilbert_bits((a, b), 8));
                        if hilbert_bits((a, b), 8) == hilbert_bits((x, y), 8) {
                            assert(a == x && b == y);
                        } else {
                            assert(top != hilbert_bits((a, b), 8));
                        }
                    }
                }
                y = y + 1;
            }
            x = x + 1;
        }
        proof {
            assert forall|c: u64| c < 0x1_0000 implies #[trigger] detangle@[c as int] == (
                hilbert_pair_bits(c, 8).0 as u8,
                hilbert_pair_bits(c, 8).1 as u8,
            ) by {
                let p = hilbert_pair_bits(c, 8);
                lemma_coords_bound(c, 8);
                lemma_index_of_coords(c, 8);
                lemma_small(p.0, c);
                lemma_small(p.1, c);
                assert(detangle@[hilbert_bits((p.0, p.1), 8) as int] == (p.0 as u8, p.1 as u8));
            }
        }
        Hilbert { entangle, detangle, rotation }
    }

    /// The Hilbert index of `pair`, one bit pair at a time from the top.
    pub fn bit_entangle(start: (u32, u32)) -> (r: u64)
        ensures
            r == hilbert_index(start),
    {
        let mut pair = start;
        let mut result: u64 = 0;
        let mut i: u32 = 0;
        proof {
            lemma_or_zero(hilbert_index(start));
        }
        while i < 32
            invariant
                i <= 32,
                result | hilbert_bits(pair, (32 - i) as nat) == hilbert_index(start),
            decreases 32 - i,
        {
            let log_s = 31 - i;
            let rx = (pair.0 >> log_s) & 1u32;
            let ry = (pair.1 >> log_s) & 1u32;
            proof {
                lemma_and_le(pair.0 >> log_s, 1);
            }
            let term = (((3 * rx) ^ ry) as u64) << (2 * log_s);
            proof {
                lemma_or_assoc(result, term, hilbert_bits(rotate(log_s, pair, rx, ry), (31 - i) as nat));
            }
            result = result | term;
            pair = Hilbert::bit_rotate(log_s, pair, rx, ry);
            i = i + 1;
        }
        proof {
            lemma_or_zero(result);
        }
        result
    }

    /// The pair whose Hilbert index is `tangle`, one quadrant code at a time
    /// from the bottom.
    pub fn bit_detangle(tangle: u64) -> (r: (u32, u32))
        ensures
            r == hilbert_coords(tangle),
    {
        let mut result: (u32, u32) = (0, 0);
        let mut log_s: u32 = 0;
        while log_s < 32
            invariant
                log_s <= 32,
                result == hilbert_pair_bits(tangle, log_s as nat),
            decreases 32 - log_s,
        {
            let shifted = ((tangle >> (2 * log_s)) & 3u64) as u32;
            let rx = (shifted >> 1) & 1u32;
            let ry = (shifted ^ rx) & 1u32;
            result = Hilbert::bit_rotate(log_s, result, rx, ry);
            result = (result.0 | (rx << log_s), result.1 | (ry << log_s));
            log_s = log_s + 1;
        }
        result
    }

    /// The sub-square transform at bit `logn`.
    fn bit_rotate(logn: u32, pair: (u32, u32), rx: u32, ry: u32) -> (r: (u32, u32))
        requires
            logn < 32,
        ensures
            r == rotate(logn, pair, rx, ry),
    {
        if ry == 0 {
            if rx != 0 {
                proof {
                    lemma_pow_positive(logn);
                }
                let off = (1u32 << logn) - 1;
                proof {
                    lemma_and_le(pair.1, off);
                    lemma_and_le(pair.0, off);
                }
                (off - (pair.1 & off), off - (pair.0 & off))
            } else {
                (pair.1, pair.0)
            }
        } else {
            pair
        }
    }
}


impl Hilbert {
    /// The table-driven index: one byte pair per step from the top, with the
    /// rotation of each step applied to the bytes that remain.
    pub fn entangle_bytewise(&self, pair: (u32, u32)) -> (r: u64)
        requires
            self.wf(),
        ensures
            r == hilbert_index(pair),
    {
        let mut x = pair.0;
        let mut y = pair.1;
        let mut result: u64 = 0;
        let mut i: u32 = 0;
        while i < 4
            invariant
                self.wf(),
                i <= 4,
                i == 0 ==> result == 0 && x == pair.0 && y == pair.1,
                i > 0 ==> hilbert_index(pair) == (result << ((2 * (32 - 8 * i)) as u64))
                    | hilbert_bits((x, y), (32 - 8 * i) as nat),
            decreases 4 - i,
        {
            let ghost mp: u32 = (24 - 8 * i) as u32;
            let ghost g = transform_bits(high((x, y), mp), 8);
            let x_byte = (x >> (24 - 8 * i)) & 255;
            let y_byte = (y >> (24 - 8 * i)) & 255;
            proof {
                lemma_and_le(x >> (24 - 8 * i) as u32, 255);
                lemma_and_le(y >> (24 - 8 * i) as u32, 255);
                lemma_byte_key(x, mp);
                lemma_byte_key(y, mp);
                lemma_index_local((x_byte, y_byte), high((x, y), mp), 8);
                lemma_transform_local((x_byte, y_byte), high((x, y), mp), 8);
                lemma_split((x, y), 8, mp);
                assert((8 + mp) as nat == (32 - 8 * i) as nat);
                let k = 256 * x_byte + y_byte;
                assert(k / 256 == x_byte && k % 256 == y_byte);
                lemma_index_bound(high((x, y), mp), 8);
                lemma_low_zero(0, 0);
            }
            let key = (x_byte as usize) * 256 + (y_byte as usize);
            let ghost old_result = result;
            let ghost old_pair = (x, y);
            result = (result << 16) | (self.entangle[key] as u64);
            let rotation = self.rotation[key];
            proof {
                lemma_code_bits(rotation);
            }
            if (rotation & 0x2) > 0 {
                let temp = x;
                x = y;
                y = temp;
            }
            if rotation == 12 || rotation == 6 {
                x = 0xFFFF_FFFF - x;
                y = 0xFFFF_FFFF - y;
            }
            proof {
                let want = apply_transform(g, mp, old_pair);
                lemma_flip_bits(old_pair.0, old_pair.0, mp, mp);
                lemma_flip_bits(old_pair.1, old_pair.1, mp, mp);
                lemma_low_idem(old_pair.0, mp);
                lemma_low_idem(old_pair.1, mp);
                lemma_index_local((x, y), want, mp as nat);
                let e = hilbert_bits(high(old_pair, mp), 8);
                let rest = hilbert_bits(want, mp as nat);
                lemma_step_join(old_result, e, rest, mp);
            }
            i = i + 1;
        }
        proof {
            lemma_top_bits(0);
            lemma_step_join(result, 0, 0, 0);
        }
        result
    }

    /// The table-driven pair: one 16-bit chunk per step from the bottom, with
    /// the rotation of each chunk applied to the bytes already recovered.
    pub fn detangle_bytewise(&self, tangle: u64) -> (r: (u32, u32))
        requires
            self.wf(),
        ensures
            r == hilbert_coords(tangle),
    {
        let mut rx: u32 = 0;
        let mut ry: u32 = 0;
        let mut log_s: u32 = 0;
        while log_s < 4
            invariant
                self.wf(),
                log_s <= 4,
                (rx, ry) == hilbert_pair_bits(tangle, (8 * log_s) as nat),
            decreases 4 - log_s,
        {
            let ghost m: u32 = (8 * log_s) as u32;
            let shifted = ((tangle >> (16 * log_s)) & 0xFFFF) as usize;
            proof {
                lemma_chunk_le(tangle >> (16 * log_s) as u64);
                lemma_chunk_low(tangle, m);
            }
            let (x_byte, y_byte) = self.detangle[shifted];
            let ghost c = (tangle >> (16 * log_s) as u64) & 0xFFFF;
            let ghost top = hilbert_pair_bits(tangle >> ((2 * m) as u64), 8);
            let ghost d = (rx, ry);
            proof {
                lemma_coords_local(c, tangle >> ((2 * m) as u64), 8);
                lemma_coords_bound(tangle >> ((2 * m) as u64), 8);
                lemma_small(top.0, 0);
                lemma_small(top.1, 0);
                assert(x_byte as u32 == top.0 && y_byte as u32 == top.1);
                let k = 256 * x_byte + y_byte;
                assert(k / 256 == x_byte && k % 256 == y_byte);
                lemma_coords_bound(tangle, m as nat);
                lemma_coords_split(tangle, 8, m);
                assert((8 + m) as nat == (8 * (log_s + 1)) as nat);
                lemma_flip_bits(rx, rx, m, m);
                lemma_flip_bits(ry, ry, m, m);
            }
            let rotation = self.rotation[(x_byte as usize) * 256 + (y_byte as usize)];
            proof {
                lemma_code_bits(rotation);
            }
            if rotation == 12 || rotation == 6 {
                proof {
                    lemma_pow_positive(m);
                    lemma_place_byte(rx, 0, m);
                    lemma_place_byte(ry, 0, m);
                }
                let off = (1u32 << (8 * log_s)) - 1;
                rx = off - rx;
                ry = off - ry;
            }
            if (rotation & 0x2) > 0 {
                let temp = rx;
                rx = ry;
                ry = temp;
            }
            proof {
                let g = transform_bits(top, 8);
                assert(rx == apply_transform(g, m, d).0 && ry == apply_transform(g, m, d).1);
                lemma_place_byte(rx, x_byte as u32, m);
                lemma_place_byte(ry, y_byte as u32, m);
            }
            rx = rx + ((x_byte as u32) << (8 * log_s));
            ry = ry + ((y_byte as u32) << (8 * log_s));
            log_s = log_s + 1;
        }
        (rx, ry)
    }
}

proof fn lemma_chunk_le(v: u64)
    by (bit_vector)
    ensures
        v & 0xFFFF < 0x1_0000,
{
}

impl Tangle for Hilbert {
    open spec fn inv(&self) -> bool {
        self.wf()
    }

    open spec fn index_of(&self, pair: (u32, u32)) -> u64 {
        hilbert_index(pair)
    }

    open spec fn coords_of(&self, tangle: u64) -> (u32, u32) {
        hilbert_coords(tangle)
    }

    /// The byte-wise index.
    fn entangle(&self, pair: (u32, u32)) -> (r: u64) {
        self.entangle_bytewise(pair)
    }

    /// The byte-wise pair.
    fn detangle(&self, tangle: u64) -> (r: (u32, u32)) {
        self.detangle_bytewise(tangle)
    }
}

/// A Hilbert decoder that remembers the transform and base offsets of the
/// upper 48 bits of the last index, for runs of indexes that share them.
/// Its cache changes on every call: each user needs an instance of its own.
pub struct BytewiseCached {
    hilbert: Hilbert,
    prev_hi: u64,
    prev_out: (u32, u32),
    prev_rot: (bool, bool),
}

/// The cache for the upper 48 bits `hi` of an index: the transform that
/// their 24 levels make, and the coordinates that they fix above the low byte.
pub open spec fn cache_holds(hi: u64, out: (u32, u32), rot: (bool, bool)) -> bool {
    let top = hilbert_pair_bits(hi, 24);
    &&& rot == transform_bits(top, 24)
    &&& out == (top.0 << 8u32, top.1 << 8u32)
}

impl BytewiseCached {
    /// The tables are well built and a valid cache holds for its prefix.
    pub closed spec fn wf(&self) -> bool {
        &&& self.hilbert.wf()
        &&& self.prev_hi < 0x1_0000_0000_0000 ==> cache_holds(
            self.prev_hi,
            self.prev_out,
            self.prev_rot,
        )
    }

    /// The pair whose Hilbert index is `tangle`. The low 16 bits are looked up
    /// directly and placed by the cached transform and offsets, which are
    /// rebuilt when the upper 48 bits change.
    pub fn detangle(&mut self, tangle: u64) -> (r: (u32, u32))
        requires
            old(self).wf(),
        ensures
            final(self).wf(),
            r == hilbert_coords(tangle),
    {
        proof {
            lemma_cache_bits(tangle, 0, 0, 0, 0);
        }
        let (mut x_byte, mut y_byte) = self.hilbert.detangle[(tangle & 0xFFFF) as usize];
        let ghost raw = hilbert_pair_bits(tangle & 0xFFFF, 8);
        proof {
            lemma_coords_local(tangle & 0xFFFF, tangle, 8);
            lemma_coords_bound(tangle & 0xFFFF, 8);
            lemma_small(raw.0, 0);
            lemma_small(raw.1, 0);
        }

        if self.prev_hi != (tangle >> 16) {
            self.prev_hi = tangle >> 16;
            // a probe in the low bits shows how the upper bits transform them
            let probe = (self.prev_hi << 16) | 255;
            let (x, y) = self.hilbert.detangle(probe);
            let ghost hi = self.prev_hi;
            let ghost top = hilbert_pair_bits(hi, 24);
            let ghost g = transform_bits(top, 24);
            let ghost d = apply_transform(g, 8, (15u32, 0u32));
            proof {
                lemma_cache_bits(tangle, hi, 0, 0, 0);
                lemma_coords_split(probe, 24, 8);
                lemma_coords_local(probe, 255, 8);
                lemma_corner();
                lemma_corner_facts();
                lemma_coords_bound(hi, 24);
                lemma_cache_bits(tangle, hi, top.0, d.0, 0);
                lemma_cache_bits(tangle, hi, top.1, d.1, 0);
            }
            let value = ((x & 0xFF) as u8, (y & 0xFF) as u8);
            if value.0 == 0x0F && value.1 == 0x00 {
                self.prev_rot = (false, false);
            } else if value.0 == 0x00 && value.1 == 0x0F {
                self.prev_rot = (true, false);
            } else if value.0 == 0xF0 && value.1 == 0xFF {
                self.prev_rot = (false, true);
            } else if value.0 == 0xFF && value.1 == 0xF0 {
                self.prev_rot = (true, true);
            } else {
                // the four transforms give the four patterns above, and no other
                proof {
                    assert(false);
                }
                self.prev_hi = u64::MAX;
            }
            self.prev_out = (x & 0xFFFF_FF00, y & 0xFFFF_FF00);
        }
        let ghost top = hilbert_pair_bits(tangle >> 16u64, 24);
        let ghost g = transform_bits(top, 24);
        let ghost d = apply_transform(g, 8, raw);
        proof {
            lemma_coords_split(tangle, 24, 8);
            lemma_cache_bits(tangle, 0, 0, 0, raw.0);
            lemma_cache_bits(tangle, 0, 0, 0, raw.1);
            lemma_flip_bits(raw.0, raw.0, 8, 8);
            lemma_flip_bits(raw.1, raw.1, 8, 8);
        }
        if self.prev_rot.1 {
            x_byte = 255 - x_byte;
            y_byte = 255 - y_byte;
        }
        if self.prev_rot.0 {
            let temp = x_byte;
            x_byte = y_byte;
            y_byte = temp;
        }
        proof {
            assert(x_byte as u32 == d.0 && y_byte as u32 == d.1);
            lemma_small(d.0, 0);
            lemma_small(d.1, 0);
        }
        (self.prev_out.0 | x_byte as u32, self.prev_out.1 | y_byte as u32)
    }

    /// A decoder over freshly built Hilbert tables, its cache primed on index 0.
    pub fn new() -> (r: BytewiseCached)
        ensures
            r.wf(),
    {
        let mut result = BytewiseCached {
            hilbert: Hilbert::new(),
            prev_hi: u64::MAX,
            prev_out: (0, 0),
            prev_rot: (false, false),
        };
        result.detangle(0);
        result
    }
}


/// The low `k` bits of `v`.
pub open spec fn low(v: u32, k: u32) -> u32 {
    if k >= 32 {
        v
    } else {
        v & (((1u32 << k) - 1) as u32)
    }
}

/// The low `k` bits of `v`.
pub open spec fn low64(v: u64, k: u64) -> u64 {
    if k >= 64 {
        v
    } else {
        v & (((1u64 << k) - 1) as u64)
    }
}

proof fn lemma_low_step(a: u32, b: u32, s: u32)
    by (bit_vector)
    requires
        s < 32,
        low(a, (s + 1) as u32) == low(b, (s + 1) as u32),
    ensures
        (a >> s) & 1 == (b >> s) & 1,
        low(a, s) == low(b, s),
{
}

proof fn lemma_low64_step(a: u64, b: u64, s: u32)
    by (bit_vector)
    requires
        s < 32,
        low64(a, (2 * (s + 1)) as u64) == low64(b, (2 * (s + 1)) as u64),
    ensures
        (a >> ((2 * s) as u64)) & 3 == (b >> ((2 * s) as u64)) & 3,
        low64(a, (2 * s) as u64) == low64(b, (2 * s) as u64),
{
}

proof fn lemma_low_zero(v: u32, t: u64)
    by (bit_vector)
    ensures
        low(v, 0) == 0,
        low64(t, 0) == 0,
        low(v, 32) == v,
        low64(t, 64) == t,
{
}

proof fn lemma_reflect(v: u32, s: u32)
    by (bit_vector)
    requires
        s < 32,
    ensures
        (((1u32 << s) - 1) as u32 - (v & (((1u32 << s) - 1) as u32))) as u32 & (((1u32 << s)
            - 1) as u32) == (((1u32 << s) - 1) as u32 - (v & (((1u32 << s) - 1) as u32))) as u32,
        (((1u32 << s) - 1) as u32 - ((((1u32 << s) - 1) as u32 - (v & (((1u32 << s) - 1) as u32))) as u32
            & (((1u32 << s) - 1) as u32))) as u32 == v & (((1u32 << s) - 1) as u32),
        v & (((1u32 << s) - 1) as u32) <= ((1u32 << s) - 1) as u32,
{
}

proof fn lemma_place_bit(a: u32, v: u32, s: u32)
    by (bit_vector)
    requires
        s < 32,
        low(a, s) == a,
    ensures
        low(a | (((v >> s) & 1) << s), (s + 1) as u32) == a | (((v >> s) & 1) << s),
        low(a | (((v >> s) & 1) << s), s) == a,
        ((a | (((v >> s) & 1) << s)) >> s) & 1 == (v >> s) & 1,
        low(v, s) | (((v >> s) & 1) << s) == low(v, (s + 1) as u32),
{
}

proof fn lemma_place_digit_bit(a: u32, r: u32, s: u32)
    by (bit_vector)
    requires
        s < 32,
        low(a, s) == a,
        r <= 1,
    ensures
        low(a | (r << s), (s + 1) as u32) == a | (r << s),
        low(a | (r << s), s) == a,
        ((a | (r << s)) >> s) & 1 == r,
{
}

proof fn lemma_quadrant(rx: u32, ry: u32)
    by (bit_vector)
    requires
        rx <= 1,
        ry <= 1,
    ensures
        (((3 * rx) as u32) ^ ry) as u64 <= 3,
        (((((3 * rx) as u32) ^ ry) as u64) as u32 >> 1u32) & 1 == rx,
        ((((((3 * rx) as u32) ^ ry) as u64) as u32) ^ rx) & 1 == ry,
{
}

proof fn lemma_digit(q: u32)
    by (bit_vector)
    requires
        q <= 3,
    ensures
        (((3 * ((q >> 1u32) & 1)) as u32) ^ ((q ^ ((q >> 1u32) & 1)) & 1)) as u64 == q as u64,
        (q >> 1u32) & 1 <= 1,
        (q ^ ((q >> 1u32) & 1)) & 1 <= 1,
{
}

proof fn lemma_digit_of(t: u64, s: u32)
    by (bit_vector)
    requires
        s < 32,
    ensures
        ((t >> ((2 * s) as u64)) & 3) as u32 <= 3,
        ((((t >> ((2 * s) as u64)) & 3) as u32) as u64) << ((2 * s) as u64) | low64(t, (2 * s) as u64)
            == low64(t, (2 * (s + 1)) as u64),
{
}

proof fn lemma_prepend_digit(q: u64, r: u64, s: u32)
    by (bit_vector)
    requires
        s < 32,
        q <= 3,
        low64(r, (2 * s) as u64) == r,
    ensures
        low64((q << ((2 * s) as u64)) | r, (2 * (s + 1)) as u64) == (q << ((2 * s) as u64)) | r,
        ((q << ((2 * s) as u64)) | r) >> ((2 * s) as u64) & 3 == q,
        low64((q << ((2 * s) as u64)) | r, (2 * s) as u64) == r,
{
}

proof fn lemma_rx_bit(v: u32, s: u32)
    by (bit_vector)
    ensures
        (v >> s) & 1 <= 1,
{
}

/// The transform at bit `s` keeps values of `s` bits within `s` bits, and
/// undoes itself on them.
proof fn lemma_rotate_low(s: u32, p: (u32, u32), rx: u32, ry: u32)
    requires
        s < 32,
    ensures
        low(rotate(s, (low(p.0, s), low(p.1, s)), rx, ry).0, s) == rotate(
            s,
            (low(p.0, s), low(p.1, s)),
            rx,
            ry,
        ).0,
        low(rotate(s, (low(p.0, s), low(p.1, s)), rx, ry).1, s) == rotate(
            s,
            (low(p.0, s), low(p.1, s)),
            rx,
            ry,
        ).1,
        rotate(
            s,
            (low(rotate(s, p, rx, ry).0, s), low(rotate(s, p, rx, ry).1, s)),
            rx,
            ry,
        ) == (low(p.0, s), low(p.1, s)),
        low(rotate(s, p, rx, ry).0, s) == low(rotate(s, (low(p.0, s), low(p.1, s)), rx, ry).0, s),
        low(rotate(s, p, rx, ry).1, s) == low(rotate(s, (low(p.0, s), low(p.1, s)), rx, ry).1, s),
{
    lemma_reflect(p.0, s);
    lemma_reflect(p.1, s);
    let a = low(p.0, s);
    let b = low(p.1, s);
    lemma_low_idem(p.0, s);
    lemma_low_idem(p.1, s);
    lemma_reflect(a, s);
    lemma_reflect(b, s);
}

proof fn lemma_low_idem(v: u32, s: u32)
    by (bit_vector)
    requires
        s < 32,
    ensures
        low(low(v, s), s) == low(v, s),
        v & (((1u32 << s) - 1) as u32) == low(v, s),
{
}

/// The index of the low `k` bits depends on those bits alone.
proof fn lemma_index_local(p: (u32, u32), p2: (u32, u32), k: nat)
    requires
        k <= 32,
        low(p.0, k as u32) == low(p2.0, k as u32),
        low(p.1, k as u32) == low(p2.1, k as u32),
    ensures
        hilbert_bits(p, k) == hilbert_bits(p2, k),
    decreases k,
{
    if k > 0 {
        let s = (k - 1) as u32;
        lemma_low_step(p.0, p2.0, s);
        lemma_low_step(p.1, p2.1, s);
        let rx = (p.0 >> s) & 1;
        let ry = (p.1 >> s) & 1;
        lemma_rotate_low(s, p, rx, ry);
        lemma_rotate_low(s, p2, rx, ry);
        lemma_index_local(rotate(s, p, rx, ry), rotate(s, p2, rx, ry), (k - 1) as nat);
    }
}

/// The pair of the low `n` quadrant codes depends on those codes alone.
proof fn lemma_coords_local(a: u64, b: u64, n: nat)
    requires
        n <= 32,
        low64(a, (2 * n) as u64) == low64(b, (2 * n) as u64),
    ensures
        hilbert_pair_bits(a, n) == hilbert_pair_bits(b, n),
    decreases n,
{
    if n > 0 {
        let s = (n - 1) as u32;
        lemma_low64_step(a, b, s);
        lemma_coords_local(a, b, (n - 1) as nat);
    }
}

/// The index of `k` bits has at most `2k` bits.
proof fn lemma_index_bound(p: (u32, u32), k: nat)
    requires
        k <= 32,
    ensures
        low64(hilbert_bits(p, k), (2 * k) as u64) == hilbert_bits(p, k),
    decreases k,
{
    if k == 0 {
        lemma_low_zero(0, 0);
    } else {
        let s = (k - 1) as u32;
        let rx = (p.0 >> s) & 1;
        let ry = (p.1 >> s) & 1;
        lemma_rx_bit(p.0, s);
        lemma_rx_bit(p.1, s);
        lemma_quadrant(rx, ry);
        lemma_index_bound(rotate(s, p, rx, ry), (k - 1) as nat);
        lemma_prepend_digit(quadrant(rx, ry), hilbert_bits(rotate(s, p, rx, ry), (k - 1) as nat), s);
    }
}

/// The pair of `n` quadrant codes has at most `n` bits in each coordinate.
proof fn lemma_coords_bound(t: u64, n: nat)
    requires
        n <= 32,
    ensures
        low(hilbert_pair_bits(t, n).0, n as u32) == hilbert_pair_bits(t, n).0,
        low(hilbert_pair_bits(t, n).1, n as u32) == hilbert_pair_bits(t, n).1,
    decreases n,
{
    if n == 0 {
        lemma_low_zero(0, 0);
    } else {
        let s = (n - 1) as u32;
        let d = hilbert_pair_bits(t, (n - 1) as nat);
        lemma_coords_bound(t, (n - 1) as nat);
        let q = ((t >> ((2 * s) as u64)) & 3) as u32;
        lemma_digit_of(t, s);
        lemma_digit(q);
        let rx = (q >> 1u32) & 1;
        let ry = (q ^ rx) & 1;
        lemma_rotate_low(s, d, rx, ry);
        let a = rotate(s, d, rx, ry);
        lemma_place_digit_bit(a.0, rx, s);
        lemma_place_digit_bit(a.1, ry, s);
    }
}

proof fn lemma_coords_of_index(p: (u32, u32), k: nat)
    requires
        k <= 32,
    ensures
        hilbert_pair_bits(hilbert_bits(p, k), k) == (low(p.0, k as u32), low(p.1, k as u32)),
    decreases k,
{
    if k == 0 {
        lemma_low_zero(p.0, 0);
        lemma_low_zero(p.1, 0);
    } else {
        let s = (k - 1) as u32;
        let rx = (p.0 >> s) & 1;
        let ry = (p.1 >> s) & 1;
        lemma_rx_bit(p.0, s);
        lemma_rx_bit(p.1, s);
        lemma_quadrant(rx, ry);
        let q = quadrant(rx, ry);
        let p2 = rotate(s, p, rx, ry);
        let r = hilbert_bits(p2, (k - 1) as nat);
        let t = hilbert_bits(p, k);
        lemma_index_bound(p2, (k - 1) as nat);
        lemma_prepend_digit(q, r, s);
        lemma_coords_local(t, r, (k - 1) as nat);
        lemma_coords_of_index(p2, (k - 1) as nat);
        lemma_rotate_low(s, p, rx, ry);
        lemma_low_idem(p.0, s);
        lemma_low_idem(p.1, s);
        lemma_place_bit(low(p.0, s), p.0, s);
        lemma_place_bit(low(p.1, s), p.1, s);
    }
}

proof fn lemma_index_of_coords(t: u64, n: nat)
    requires
        n <= 32,
    ensures
        hilbert_bits(hilbert_pair_bits(t, n), n) == low64(t, (2 * n) as u64),
    decreases n,
{
    if n == 0 {
        lemma_low_zero(0, t);
    } else {
        let s = (n - 1) as u32;
        let d = hilbert_pair_bits(t, (n - 1) as nat);
        lemma_coords_bound(t, (n - 1) as nat);
        let q = ((t >> ((2 * s) as u64)) & 3) as u32;
        lemma_digit_of(t, s);
        lemma_digit(q);
        let rx = (q >> 1u32) & 1;
        let ry = (q ^ rx) & 1;
        lemma_rotate_low(s, d, rx, ry);
        let a = rotate(s, d, rx, ry);
        lemma_place_digit_bit(a.0, rx, s);
        lemma_place_digit_bit(a.1, ry, s);
        let p = hilbert_pair_bits(t, n);
        assert(p == (a.0 | (rx << s), a.1 | (ry << s)));
        lemma_rotate_low(s, p, rx, ry);
        lemma_rotate_low(s, a, rx, ry);
        lemma_index_local(rotate(s, p, rx, ry), d, (n - 1) as nat);
        lemma_index_of_coords(t, (n - 1) as nat);
    }
}

/// The Hilbert index and its inverse are mutual inverses over the whole
/// domain: every pair comes back from its index, and every index from its pair.
pub proof fn lemma_hilbert_bijection(pair: (u32, u32), t: u64)
    ensures
        hilbert_coords(hilbert_index(pair)) == pair,
        hilbert_index(hilbert_coords(t)) == t,
{
    lemma_coords_of_index(pair, 32);
    lemma_low_zero(pair.0, t);
    lemma_low_zero(pair.1, t);
    lemma_index_of_coords(t, 32);
}


/// `v` reflected within its low `w` bits.
pub open spec fn flip(v: u32, w: u32) -> u32 {
    (((1u32 << w) - 1) as u32 - (v & (((1u32 << w) - 1) as u32))) as u32
}

/// A transform of the low `w` bits of a pair: a swap, then a reflection.
pub open spec fn apply_transform(g: (bool, bool), w: u32, p: (u32, u32)) -> (u32, u32) {
    let q = if g.0 {
        (p.1, p.0)
    } else {
        p
    };
    if g.1 {
        (flip(q.0, w), flip(q.1, w))
    } else {
        q
    }
}

/// The transform that the bits below a level undergo in quadrant `(rx, ry)`.
pub open spec fn level_transform(rx: u32, ry: u32) -> (bool, bool) {
    (ry == 0, ry == 0 && rx != 0)
}

/// The transform that applies `b`, then `a`.
pub open spec fn compose(a: (bool, bool), b: (bool, bool)) -> (bool, bool) {
    (a.0 != b.0, a.1 != b.1)
}

/// The transform that the top `j` levels of `h` apply to the bits below them.
pub open spec fn transform_bits(h: (u32, u32), j: nat) -> (bool, bool)
    decreases j,
{
    if j == 0 || j > 32 {
        (false, false)
    } else {
        let s = (j - 1) as u32;
        let rx = (h.0 >> s) & 1;
        let ry = (h.1 >> s) & 1;
        compose(transform_bits(rotate(s, h, rx, ry), (j - 1) as nat), level_transform(rx, ry))
    }
}

/// The bits of `p` above the low `m`.
pub open spec fn high(p: (u32, u32), m: u32) -> (u32, u32) {
    (p.0 >> m, p.1 >> m)
}

proof fn lemma_flip_bits(v: u32, v2: u32, w: u32, m: u32)
    by (bit_vector)
    requires
        w < 32,
        m <= w,
    ensures
        low(flip(v, w), w) == flip(v, w),
        low(flip(flip(v, w), w), w) == low(v, w),
        low(v, w) == low(v2, w) ==> flip(v, w) == flip(v2, w),
        low(flip(v, w), m) == low(flip(v, m), m),
        low(((0xFFFF_FFFFu32 - v) as u32), w) == flip(v, w),
{
}

proof fn lemma_flip_high(v: u32, a: u32, m: u32)
    by (bit_vector)
    requires
        a + m < 32,
    ensures
        low(flip(v, (a + m) as u32) >> m, a) == low(flip(v >> m, a), a),
        low(v >> m, a) == low(v >> m, a),
{
}

/// A transform reads only the low `w` bits, and two in turn make their composite.
proof fn lemma_apply_transform(g: (bool, bool), g2: (bool, bool), w: u32, p: (u32, u32), p2: (u32, u32))
    requires
        w < 32,
    ensures
        low(p.0, w) == low(p2.0, w) && low(p.1, w) == low(p2.1, w) ==> low(apply_transform(g, w, p).0, w)
            == low(apply_transform(g, w, p2).0, w) && low(apply_transform(g, w, p).1, w)
            == low(apply_transform(g, w, p2).1, w),
        low(apply_transform(g, w, apply_transform(g2, w, p)).0, w) == low(apply_transform(compose(g, g2), w, p).0, w),
        low(apply_transform(g, w, apply_transform(g2, w, p)).1, w) == low(apply_transform(compose(g, g2), w, p).1, w),
{
    lemma_flip_bits(p.0, p2.0, w, w);
    lemma_flip_bits(p.1, p2.1, w, w);
    lemma_flip_bits(p.0, p2.1, w, w);
    lemma_flip_bits(p.1, p2.0, w, w);
    lemma_flip_bits(flip(p.0, w), p.0, w, w);
    lemma_flip_bits(flip(p.1, w), p.1, w, w);
    lemma_low_idem(p.0, w);
    lemma_low_idem(p.1, w);
    lemma_flip_bits(low(p.0, w), p.0, w, w);
    lemma_flip_bits(low(p.1, w), p.1, w, w);
}


/// Below bit `m`, the transform at a level at or above `m` is its quadrant's.
proof fn lemma_level(s: u32, m: u32, p: (u32, u32), rx: u32, ry: u32)
    requires
        m <= s < 32,
    ensures
        low(rotate(s, p, rx, ry).0, m) == low(apply_transform(level_transform(rx, ry), m, p).0, m),
        low(rotate(s, p, rx, ry).1, m) == low(apply_transform(level_transform(rx, ry), m, p).1, m),
{
    lemma_flip_bits(p.0, p.0, s, m);
    lemma_flip_bits(p.1, p.1, s, m);
}

/// Above bit `m`, the transform at level `a + m` is the one at level `a`.
proof fn lemma_high_rotate(a: u32, m: u32, p: (u32, u32), rx: u32, ry: u32)
    requires
        a + m < 32,
    ensures
        low(high(rotate((a + m) as u32, p, rx, ry), m).0, a) == low(rotate(a, high(p, m), rx, ry).0, a),
        low(high(rotate((a + m) as u32, p, rx, ry), m).1, a) == low(rotate(a, high(p, m), rx, ry).1, a),
{
    lemma_flip_high(p.0, a, m);
    lemma_flip_high(p.1, a, m);
}

proof fn lemma_shift_sum(v: u32, a: u32, m: u32)
    by (bit_vector)
    requires
        a + m < 32,
    ensures
        ((v >> m) >> a) & 1 == (v >> ((a + m) as u32)) & 1,
{
}

/// The transform of the top `j` levels depends on their bits alone.
proof fn lemma_transform_local(h: (u32, u32), h2: (u32, u32), j: nat)
    requires
        j <= 32,
        low(h.0, j as u32) == low(h2.0, j as u32),
        low(h.1, j as u32) == low(h2.1, j as u32),
    ensures
        transform_bits(h, j) == transform_bits(h2, j),
    decreases j,
{
    if j > 0 {
        let s = (j - 1) as u32;
        lemma_low_step(h.0, h2.0, s);
        lemma_low_step(h.1, h2.1, s);
        let rx = (h.0 >> s) & 1;
        let ry = (h.1 >> s) & 1;
        lemma_rotate_low(s, h, rx, ry);
        lemma_rotate_low(s, h2, rx, ry);
        lemma_transform_local(rotate(s, h, rx, ry), rotate(s, h2, rx, ry), (j - 1) as nat);
    }
}

proof fn lemma_join(q: u64, h: u64, r: u64, a: u32, m: u32)
    by (bit_vector)
    requires
        a + m < 32,
        q <= 3,
        low64(h, (2 * a) as u64) == h,
    ensures
        (q << ((2 * (a + m)) as u64)) | ((h << ((2 * m) as u64)) | r) == (((q << ((2 * a) as u64))
            | h) << ((2 * m) as u64)) | r,
        (0u64 << ((2 * m) as u64)) | r == r,
{
}

/// The index of `j + m` levels is the index of the top `j` levels, followed by
/// the index of the low `m` bits under the transform that the top levels make.
proof fn lemma_split(p: (u32, u32), j: nat, m: u32)
    requires
        j + m <= 32,
        m < 32,
    ensures
        hilbert_bits(p, (j + m) as nat) == (hilbert_bits(high(p, m), j) << ((2 * m) as u64)) | hilbert_bits(
            apply_transform(transform_bits(high(p, m), j), m, p),
            m as nat,
        ),
    decreases j,
{
    if j == 0 {
        lemma_low_zero(0, 0);
        lemma_join(0, 0, hilbert_bits(p, m as nat), 0, m);
        assert(apply_transform((false, false), m, p) == p);
    } else {
        let a = (j - 1) as u32;
        let s = (a + m) as u32;
        let hp = high(p, m);
        let rx = (p.0 >> s) & 1;
        let ry = (p.1 >> s) & 1;
        lemma_shift_sum(p.0, a, m);
        lemma_shift_sum(p.1, a, m);
        assert(rx == (hp.0 >> a) & 1 && ry == (hp.1 >> a) & 1);
        lemma_rx_bit(p.0, s);
        lemma_rx_bit(p.1, s);
        lemma_quadrant(rx, ry);
        let p2 = rotate(s, p, rx, ry);
        let hr = rotate(a, hp, rx, ry);
        lemma_split(p2, (j - 1) as nat, m);
        assert((j - 1) as nat + m == (j + m - 1) as nat);
        lemma_high_rotate(a, m, p, rx, ry);
        lemma_index_local(high(p2, m), hr, a as nat);
        lemma_transform_local(high(p2, m), hr, a as nat);
        let g2 = transform_bits(hr, a as nat);
        let lvl = level_transform(rx, ry);
        assert(transform_bits(hp, j) == compose(g2, lvl));
        lemma_level(s, m, p, rx, ry);
        lemma_apply_transform(g2, lvl, m, p2, apply_transform(lvl, m, p));
        lemma_apply_transform(g2, lvl, m, p, p);
        lemma_index_local(apply_transform(g2, m, p2), apply_transform(compose(g2, lvl), m, p), m as nat);
        lemma_index_bound(hr, a as nat);
        lemma_join(quadrant(rx, ry), hilbert_bits(hr, a as nat), hilbert_bits(apply_transform(g2, m, p2), m as nat), a, m);
    }
}


proof fn lemma_probe_facts()
    by (bit_vector)
    ensures
        flip(0, 24) == 0xFF_FFFF,
        flip(0x80_0000, 24) == 0x7F_FFFF,
        0u32 >> 22u32 == 0,
        0x80_0000u32 >> 22u32 == 2,
        0xFF_FFFFu32 >> 22u32 == 3,
        0x7F_FFFFu32 >> 22u32 == 1,
        (0u32 >> 1u32) & 1 == 0,
        (1u32 >> 1u32) & 1 == 0,
        (2u32 >> 1u32) & 1 == 1,
        (3u32 >> 1u32) & 1 == 1,
        (0u32 >> 0u32) & 1 == 0,
        (1u32 >> 0u32) & 1 == 1,
        (2u32 >> 0u32) & 1 == 0,
        (3u32 >> 0u32) & 1 == 1,
        (0u64 << 0u64) | 0 == 0,
        (2u64 << 0u64) | 0 == 2,
        flip(0, 1) == 1,
        flip(1, 1) == 0,
        flip(2, 1) == 1,
        flip(3, 1) == 0,
        (((3 * 0u32) as u32) ^ 0u32) as u64 == 0,
        (((3 * 0u32) as u32) ^ 1u32) as u64 == 1,
        (((3 * 1u32) as u32) ^ 1u32) as u64 == 2,
        (((3 * 1u32) as u32) ^ 0u32) as u64 == 3,
        (1u64 << 2u64) | ((0u64 << 0u64) | 0) == 4,
        (3u64 << 2u64) | ((2u64 << 0u64) | 0) == 14,
        (3u64 << 2u64) | ((0u64 << 0u64) | 0) == 12,
        (1u64 << 2u64) | ((2u64 << 0u64) | 0) == 6,
{
}

/// The two-level codes of the four places that a transform can move the
/// point `(0, 2)` to.
proof fn lemma_two_level_codes()
    ensures
        hilbert_bits((0, 2), 2) == 4,
        hilbert_bits((2, 0), 2) == 14,
        hilbert_bits((3, 1), 2) == 12,
        hilbert_bits((1, 3), 2) == 6,
{
    lemma_probe_facts();
    reveal_with_fuel(hilbert_bits, 3);
    assert(rotate(1, (0, 2), 0, 1) == (0u32, 2u32));
    assert(hilbert_bits((0u32, 2u32), 1) == 0);
    assert(rotate(1, (2, 0), 1, 0) == (1u32, 1u32));
    assert(hilbert_bits((1u32, 1u32), 1) == 2);
    assert(rotate(1, (3, 1), 1, 0) == (0u32, 0u32));
    assert(hilbert_bits((0u32, 0u32), 1) == 0);
    assert(rotate(1, (1, 3), 0, 1) == (1u32, 3u32));
    assert(hilbert_bits((1u32, 3u32), 1) == 2);
}


proof fn lemma_byte_key(v: u32, m: u32)
    by (bit_vector)
    requires
        m < 32,
    ensures
        low((v >> m) & 255, 8) == low(v >> m, 8),
        low(v, 32) == v,
{
}

proof fn lemma_code_bits(c: u8)
    by (bit_vector)
    ensures
        c == 4 ==> c & 2 == 0,
        c == 14 ==> c & 2 == 2,
        c == 12 ==> c & 2 == 0,
        c == 6 ==> c & 2 == 2,
{
}

proof fn lemma_step_join(result: u64, e: u64, rest: u64, mp: u32)
    by (bit_vector)
    requires
        mp <= 24,
        low64(e, 16) == e,
    ensures
        (result << ((2 * (mp + 8)) as u64)) | ((e << ((2 * mp) as u64)) | rest) == (((result
            << 16u64) | e) << ((2 * mp) as u64)) | rest,
        (0u64 << 16u64) | e == e,
        (result << 0u64) | 0 == result,
{
}

proof fn lemma_small(v: u32, c: u64)
    by (bit_vector)
    ensures
        low(v, 8) == v <==> v < 256,
        c < 0x1_0000 ==> low64(c, 16) == c,
        low64(c, 16) < 0x1_0000,
{
}

proof fn lemma_chunk_low(t: u64, m: u32)
    by (bit_vector)
    requires
        m <= 24,
    ensures
        low64((t >> ((2 * m) as u64)) & 0xFFFF, 16) == low64(t >> ((2 * m) as u64), 16),
{
}

proof fn lemma_place_byte(a: u32, b: u32, m: u32)
    by (bit_vector)
    requires
        m <= 24,
        low(a, m) == a,
        b < 256,
    ensures
        a <= ((1u32 << m) - 1) as u32,
        a + (b << m) <= 0xFFFF_FFFF,
        (a + (b << m)) as u32 == (b << m) | a,
        flip(a, m) == (((1u32 << m) - 1) as u32 - a) as u32,
{
}

proof fn lemma_cache_bits(t: u64, hi: u64, a: u32, b: u32, v: u32)
    by (bit_vector)
    ensures
        t >> 16u64 < 0x1_0000_0000_0000,
        hi < 0x1_0000_0000_0000 ==> ((hi << 16u64) | 255) >> 16u64 == hi,
        low64((hi << 16u64) | 255, 16) == 255,
        low64(255u64, 16) == 255,
        low64(t & 0xFFFF, 16) == low64(t, 16),
        t & 0xFFFF < 0x1_0000,
        low(a, 24) == a && b < 256 ==> ((a << 8u32) | b) & 0xFF == b && ((a << 8u32) | b)
            & 0xFFFF_FF00 == a << 8u32,
        flip(15, 8) == 240,
        flip(0, 8) == 255,
        low(240, 8) == 240,
        low(255, 8) == 255,
        v < 256 ==> flip(v, 8) == 255 - v,
{
}

proof fn lemma_top_bits(t: u64)
    by (bit_vector)
    ensures
        t >> 48u64 < 0x1_0000,
        (t >> 44u64) & 0x0F < 0x10,
        low64(0u64, 16) == 0,
{
}

/// The code that bits 44 to 47 of a probe index take under each transform.
pub open spec fn rotation_code(g: (bool, bool)) -> u64 {
    if g.0 {
        if g.1 {
            6
        } else {
            14
        }
    } else if g.1 {
        12
    } else {
        4
    }
}

proof fn lemma_probe_split(x: u32, y: u32, h: u64, r: u64, h2: u64, r2: u64)
    by (bit_vector)
    requires
        x < 256,
        y < 256,
        low64(h, 16) == h,
        low64(r, 48) == r,
        low64(h2, 4) == h2,
        low64(r2, 44) == r2,
    ensures
        (x << 24u32) >> 24u32 == x,
        ((y << 24u32) | (1u32 << 23u32)) >> 24u32 == y,
        low(x << 24u32, 24) == 0,
        low((y << 24u32) | (1u32 << 23u32), 24) == 0x80_0000,
        low(0, 24) == 0,
        low(0x80_0000, 24) == 0x80_0000,
        ((h << 48u64) | r) >> 48u64 == h,
        (((h << 48u64) | r) >> 44u64) & 0x0F == (r >> 44u64) & 0x0F,
        (((h2 << 44u64) | r2) >> 44u64) & 0x0F == h2,
{
}

/// The index of a byte pair placed at the top, with a probe bit below `y`'s,
/// holds the pair's own 8-level index in its top 16 bits and the code of the
/// transform that the pair makes in bits 44 to 47.
proof fn lemma_probe(x: u32, y: u32)
    requires
        x < 256,
        y < 256,
    ensures
        hilbert_index((x << 24u32, (y << 24u32) | (1u32 << 23u32))) >> 48u64 == hilbert_bits((x, y), 8),
        (hilbert_index((x << 24u32, (y << 24u32) | (1u32 << 23u32))) >> 44u64) & 0x0F
            == rotation_code(transform_bits((x, y), 8)),
{
    let probe = (x << 24u32, (y << 24u32) | (1u32 << 23u32));
    let g = transform_bits(high(probe, 24), 8);
    let base = (0u32, 0x80_0000u32);
    let c = apply_transform(g, 24, base);
    lemma_split(probe, 8, 24);
    let h = hilbert_bits(high(probe, 24), 8);
    let r = hilbert_bits(apply_transform(g, 24, probe), 24);
    lemma_index_bound(high(probe, 24), 8);
    lemma_index_bound(apply_transform(g, 24, probe), 24);
    lemma_split(c, 2, 22);
    let h2 = hilbert_bits(high(c, 22), 2);
    let r2 = hilbert_bits(apply_transform(transform_bits(high(c, 22), 2), 22, c), 22);
    lemma_index_bound(high(c, 22), 2);
    lemma_index_bound(apply_transform(transform_bits(high(c, 22), 2), 22, c), 22);
    lemma_probe_split(x, y, h, r, h2, r2);
    assert(high(probe, 24) == (x, y));
    lemma_apply_transform(g, g, 24, probe, base);
    lemma_index_local(apply_transform(g, 24, probe), c, 24);
    lemma_probe_facts();
    lemma_two_level_codes();
    assert((32 - 8) as nat == 24);
}


proof fn lemma_index_parts(t: u64, a: u64, b: u64, j: u32, m: u32)
    by (bit_vector)
    requires
        j + m <= 32,
        m < 32,
        low64(a, (2 * j) as u64) == a,
        low64(b, (2 * m) as u64) == b,
        low64(t, (2 * (j + m)) as u64) == (a << ((2 * m) as u64)) | b,
    ensures
        b == low64(t, (2 * m) as u64),
        a == low64(t >> ((2 * m) as u64), (2 * j) as u64),
{
}

proof fn lemma_pair_parts(v: u32, j: u32, m: u32)
    by (bit_vector)
    requires
        j + m <= 32,
        m < 32,
        low(v, (j + m) as u32) == v,
    ensures
        low(v >> m, j) == v >> m,
        v == ((v >> m) << m) | low(v, m),
{
}

/// The pair of `j + m` quadrant codes is the pair of the top `j` codes above
/// the pair of the low `m` codes under the transform that the top ones make.
proof fn lemma_coords_split(t: u64, j: nat, m: u32)
    requires
        j + m <= 32,
        m < 32,
    ensures
        ({
            let p = hilbert_pair_bits(t, (j + m) as nat);
            let top = hilbert_pair_bits(t >> ((2 * m) as u64), j);
            let d = apply_transform(transform_bits(top, j), m, hilbert_pair_bits(t, m as nat));
            &&& p.0 == (top.0 << m) | low(d.0, m)
            &&& p.1 == (top.1 << m) | low(d.1, m)
        }),
{
    let k = (j + m) as nat;
    let p = hilbert_pair_bits(t, k);
    let hp = high(p, m);
    let g = transform_bits(hp, j);
    let q = apply_transform(g, m, p);
    lemma_coords_bound(t, k);
    lemma_index_of_coords(t, k);
    lemma_split(p, j, m);
    let a = hilbert_bits(hp, j);
    let b = hilbert_bits(q, m as nat);
    lemma_index_bound(hp, j);
    lemma_index_bound(q, m as nat);
    lemma_index_parts(t, a, b, j as u32, m);
    lemma_pair_parts(p.0, j as u32, m);
    lemma_pair_parts(p.1, j as u32, m);
    lemma_coords_of_index(hp, j);
    lemma_coords_local(a, t >> ((2 * m) as u64), j);
    lemma_coords_of_index(q, m as nat);
    lemma_coords_local(b, t, m as nat);
    let top = hilbert_pair_bits(t >> ((2 * m) as u64), j);
    assert(top == hp);
    let dm = hilbert_pair_bits(t, m as nat);
    assert(dm == (low(q.0, m), low(q.1, m)));
    lemma_low_idem(q.0, m);
    lemma_low_idem(q.1, m);
    assert(apply_transform((false, false), m, p) == p);
    lemma_apply_transform(g, g, m, dm, q);
    lemma_apply_transform(g, g, m, p, p);
    assert(compose(g, g) == (false, false));
}


proof fn lemma_corner_facts()
    by (bit_vector)
    ensures
        (0u32 >> 3u32) & 1 == 0,
        (0u32 >> 2u32) & 1 == 0,
        (15u32 >> 3u32) & 1 == 1,
        (7u32 >> 2u32) & 1 == 1,
        (3u32 >> 1u32) & 1 == 1,
        flip(0, 3) == 7,
        flip(15, 3) == 0,
        flip(0, 2) == 3,
        flip(7, 2) == 0,
        flip(0, 1) == 1,
        flip(3, 1) == 0,
        flip(0, 0) == 0,
        flip(1, 0) == 0,
        15u32 >> 4u32 == 0,
        0u32 >> 4u32 == 0,
        low(15, 4) == 15,
        low(0, 4) == 0,
        low(15, 8) == 15,
        low(0, 8) == 0,
        (3u64 << 0u64) | 0 == 3,
        (3u64 << 2u64) | 3 == 15,
        (3u64 << 4u64) | 15 == 63,
        (3u64 << 6u64) | 63 == 255,
        (0u64 << 8u64) | 255 == 255,
        (0u64 << 0u64) | 0 == 0,
        (0u64 << 2u64) | 0 == 0,
        (0u64 << 4u64) | 0 == 0,
        (0u64 << 6u64) | 0 == 0,
        (0u32 >> 1u32) & 1 == 0,
        (0u32 >> 0u32) & 1 == 0,
{
}

/// Index 255 of the 16 by 16 square ends at `(15, 0)`.
proof fn lemma_corner()
    ensures
        hilbert_pair_bits(255, 8) == (15u32, 0u32),
{
    lemma_corner_facts();
    lemma_probe_facts();
    reveal_with_fuel(hilbert_bits, 5);
    reveal_with_fuel(transform_bits, 5);
    assert(rotate(0, (0u32, 0u32), 0, 0) == (0u32, 0u32));
    assert(rotate(1, (0u32, 0u32), 0, 0) == (0u32, 0u32));
    assert(rotate(2, (0u32, 0u32), 0, 0) == (0u32, 0u32));
    assert(rotate(3, (0u32, 0u32), 0, 0) == (0u32, 0u32));
    assert(hilbert_bits((0u32, 0u32), 1) == 0);
    assert(hilbert_bits((0u32, 0u32), 2) == 0);
    assert(hilbert_bits((0u32, 0u32), 3) == 0);
    assert(hilbert_bits((0u32, 0u32), 4) == 0);
    assert(transform_bits((0u32, 0u32), 1) == (true, false));
    assert(transform_bits((0u32, 0u32), 2) == (false, false));
    assert(transform_bits((0u32, 0u32), 3) == (true, false));
    assert(transform_bits((0u32, 0u32), 4) == (false, false));
    assert(hilbert_bits((1u32, 0u32), 1) == 3);
    assert(hilbert_bits((3u32, 0u32), 2) == 15);
    assert(hilbert_bits((7u32, 0u32), 3) == 63);
    assert(hilbert_bits((15u32, 0u32), 4) == 255);
    lemma_split((15u32, 0u32), 4, 4);
    assert(high((15u32, 0u32), 4) == (0u32, 0u32));
    assert(apply_transform((false, false), 4, (15u32, 0u32)) == (15u32, 0u32));
    lemma_coords_of_index((15u32, 0u32), 8);
}

} // verus!
