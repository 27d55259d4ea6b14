//! Bit-level packing and unpacking.
//!
//! A sequence of bits is packed into bytes most-significant-bit first and
//! zero-padded to the next byte boundary.  Multi-byte integers of the artifact
//! are little-endian.

use vstd::prelude::*;

verus! {

/// Bit `k` of a bit sequence, where positions past the end read as the zero
/// padding bits.
pub open spec fn bit_at(bits: Seq<bool>, k: int) -> bool {
    if 0 <= k < bits.len() {
        bits[k]
    } else {
        false
    }
}

/// The value of the first `j` bits of chunk `i`, accumulated MSB-first.
pub open spec fn byte_val(bits: Seq<bool>, i: int, j: int) -> nat
    decreases j,
{
    if j <= 0 {
        0
    } else {
        2 * byte_val(bits, i, j - 1) + (if bit_at(bits, 8 * i + (j - 1)) {
            1nat
        } else {
            0nat
        })
    }
}

/// How many bytes hold `nbits` bits, rounding up.
pub open spec fn num_bytes_for(nbits: int) -> int {
    (nbits + 7) / 8
}

/// The bytes that carry `bits` packed MSB-first, zero-padded at the end.
pub open spec fn pack_bits(bits: Seq<bool>) -> Seq<u8> {
    Seq::new(num_bytes_for(bits.len() as int) as nat, |i: int| byte_val(bits, i, 8) as u8)
}

/// Bit `j` (MSB-first, `0 <= j < 8`) of a packed byte.
pub open spec fn byte_bit(b: u8, j: int) -> bool {
    (b >> ((7 - j) as u8)) & 1 == 1
}

pub open spec fn two_to(j: int) -> nat
    decreases j,
{
    if j <= 0 {
        1
    } else {
        2 * two_to(j - 1)
    }
}

pub proof fn lemma_two_to_monotone(i: int, j: int)
    requires
        i <= j,
    ensures
        two_to(i) <= two_to(j),
    decreases j - i,
{
    if i < j {
        lemma_two_to_monotone(i, j - 1);
    }
}

pub proof fn lemma_byte_val_bound(bits: Seq<bool>, i: int, j: int)
    requires
        0 <= j,
    ensures
        byte_val(bits, i, j) < two_to(j),
    decreases j,
{
    if j > 0 {
        lemma_byte_val_bound(bits, i, j - 1);
    }
}

/// Extracting bit `j` of packed byte `i` gives back bit `8 * i + j`.
pub proof fn lemma_pack_bits_extract(bits: Seq<bool>, i: int, j: int)
    requires
        0 <= i < num_bytes_for(bits.len() as int),
        0 <= j < 8,
    ensures
        byte_bit(pack_bits(bits)[i], j) == bit_at(bits, 8 * i + j),
{
    let x0: u8 = if bit_at(bits, 8 * i + 0) { 1 } else { 0 };
    let x1: u8 = if bit_at(bits, 8 * i + 1) { 1 } else { 0 };
    let x2: u8 = if bit_at(bits, 8 * i + 2) { 1 } else { 0 };
    let x3: u8 = if bit_at(bits, 8 * i + 3) { 1 } else { 0 };
    let x4: u8 = if bit_at(bits, 8 * i + 4) { 1 } else { 0 };
    let x5: u8 = if bit_at(bits, 8 * i + 5) { 1 } else { 0 };
    let x6: u8 = if bit_at(bits, 8 * i + 6) { 1 } else { 0 };
    let x7: u8 = if bit_at(bits, 8 * i + 7) { 1 } else { 0 };
    assert(byte_val(bits, i, 8) == 128 * x0 + 64 * x1 + 32 * x2 + 16 * x3 + 8 * x4 + 4 * x5 + 2
        * x6 + x7) by {
        reveal_with_fuel(byte_val, 9);
    }
    lemma_byte_val_bound(bits, i, 8);
    assert(two_to(8) == 256) by {
        reveal_with_fuel(two_to, 9);
    }
    let v: u8 = byte_val(bits, i, 8) as u8;
    assert(pack_bits(bits)[i] == v);
    let jb: u8 = j as u8;
    assert(((v >> ((7 - jb) as u8)) & 1 == 1) == (if jb == 0 {
        x0 == 1
    } else if jb == 1 {
        x1 == 1
    } else if jb == 2 {
        x2 == 1
    } else if jb == 3 {
        x3 == 1
    } else if jb == 4 {
        x4 == 1
    } else if jb == 5 {
        x5 == 1
    } else {
        if jb == 6 {
            x6 == 1
        } else {
            x7 == 1
        }
    })) by (bit_vector)
        requires
            v == 128 * x0 + 64 * x1 + 32 * x2 + 16 * x3 + 8 * x4 + 4 * x5 + 2 * x6 + x7,
            x0 <= 1 && x1 <= 1 && x2 <= 1 && x3 <= 1,
            x4 <= 1 && x5 <= 1 && x6 <= 1 && x7 <= 1,
            jb < 8,
    ;
}

/// Packs a bit sequence into bytes, MSB-first, zero-padded.
pub fn pack_bits_exec(bits: &Vec<bool>) -> (r: Vec<u8>)
    ensures
        r@ == pack_bits(bits@),
{
    let mut out: Vec<u8> = Vec::new();
    let mut b: u32 = 0;
    let mut j: usize = 0;
    let mut k: usize = 0;
    while k < bits.len()
        invariant
            k <= bits@.len(),
            j < 8,
            k == 8 * out@.len() + j,
            forall|m: int| 0 <= m < out@.len() ==> out@[m] == byte_val(bits@, m, 8) as u8,
            b as nat == byte_val(bits@, out@.len() as int, j as int),
            (b as nat) < two_to(j as int),
        decreases bits@.len() - k,
    {
        proof {
            lemma_two_to_monotone(j as int, 7);
            assert(two_to(7) == 128) by {
                reveal_with_fuel(two_to, 8);
            }
        }
        let bit: bool = bits[k];
        b = 2 * b + (if bit {
            1
        } else {
            0
        });
        j = j + 1;
        k = k + 1;
        if j == 8 {
            proof {
                lemma_byte_val_bound(bits@, out@.len() as int, 8);
                assert(two_to(8) == 256) by {
                    reveal_with_fuel(two_to, 9);
                }
            }
            out.push(b as u8);
            b = 0;
            j = 0;
        }
    }
    if j > 0 {
        while j < 8
            invariant
                0 < j <= 8,
                8 * out@.len() + j >= bits@.len(),
                forall|m: int| 0 <= m < out@.len() ==> out@[m] == byte_val(bits@, m, 8) as u8,
                b as nat == byte_val(bits@, out@.len() as int, j as int),
                (b as nat) < two_to(j as int),
                out@.len() == bits@.len() as int / 8,
            decreases 8 - j,
        {
            proof {
                lemma_two_to_monotone(j as int, 7);
                assert(two_to(7) == 128) by {
                    reveal_with_fuel(two_to, 8);
                }
            }
            b = 2 * b;
            j = j + 1;
        }
        proof {
            lemma_byte_val_bound(bits@, out@.len() as int, 8);
            assert(two_to(8) == 256) by {
                reveal_with_fuel(two_to, 9);
            }
        }
        out.push(b as u8);
    }
    proof {
        assert(out@ =~= pack_bits(bits@));
    }
    out
}

/// The little-endian bytes of a `u16`.
pub open spec fn le16_bytes(v: u16) -> Seq<u8> {
    seq![(v & 0xff) as u8, ((v >> 8) & 0xff) as u8]
}

/// The little-endian bytes of a `u32`.
pub open spec fn le32_bytes(v: u32) -> Seq<u8> {
    seq![
        (v & 0xff) as u8,
        ((v >> 8) & 0xff) as u8,
        ((v >> 16) & 0xff) as u8,
        ((v >> 24) & 0xff) as u8,
    ]
}

/// The `u16` read from two little-endian bytes.
pub open spec fn parse_le16(b0: u8, b1: u8) -> u16 {
    (b0 as u16) | ((b1 as u16) << 8)
}

/// The `u32` read from four little-endian bytes.
pub open spec fn parse_le32(b0: u8, b1: u8, b2: u8, b3: u8) -> u32 {
    (b0 as u32) | ((b1 as u32) << 8) | ((b2 as u32) << 16) | ((b3 as u32) << 24)
}

pub proof fn lemma_le16_roundtrip(v: u16)
    ensures
        parse_le16(le16_bytes(v)[0], le16_bytes(v)[1]) == v,
{
    let b0: u8 = (v & 0xff) as u8;
    let b1: u8 = ((v >> 8) & 0xff) as u8;
    assert((b0 as u16) | ((b1 as u16) << 8) == v) by (bit_vector)
        requires
            b0 == (v & 0xff) as u8,
            b1 == ((v >> 8) & 0xff) as u8,
    ;
}

pub proof fn lemma_le32_roundtrip(v: u32)
    ensures
        parse_le32(le32_bytes(v)[0], le32_bytes(v)[1], le32_bytes(v)[2], le32_bytes(v)[3]) == v,
{
    let b0: u8 = (v & 0xff) as u8;
    let b1: u8 = ((v >> 8) & 0xff) as u8;
    let b2: u8 = ((v >> 16) & 0xff) as u8;
    let b3: u8 = ((v >> 24) & 0xff) as u8;
    assert((b0 as u32) | ((b1 as u32) << 8) | ((b2 as u32) << 16) | ((b3 as u32) << 24) == v)
        by (bit_vector)
        requires
            b0 == (v & 0xff) as u8,
            b1 == ((v >> 8) & 0xff) as u8,
            b2 == ((v >> 16) & 0xff) as u8,
            b3 == ((v >> 24) & 0xff) as u8,
    ;
}

/// Appends the two little-endian bytes of `v`.
pub fn push_le16(out: &mut Vec<u8>, v: u16)
    ensures
        final(out)@ == old(out)@ + le16_bytes(v),
{
    proof {
        assert((v & 0xff) < 256 && ((v >> 8) & 0xff) < 256) by (bit_vector);
    }
    out.push((v & 0xff) as u8);
    out.push(((v >> 8) & 0xff) as u8);
    proof {
        assert(out@ =~= old(out)@ + le16_bytes(v));
    }
}

/// Appends the four little-endian bytes of `v`.
pub fn push_le32(out: &mut Vec<u8>, v: u32)
    ensures
        final(out)@ == old(out)@ + le32_bytes(v),
{
    proof {
        assert((v & 0xff) < 256 && ((v >> 8) & 0xff) < 256 && ((v >> 16) & 0xff) < 256 && ((v
            >> 24) & 0xff) < 256) by (bit_vector);
    }
    out.push((v & 0xff) as u8);
    out.push(((v >> 8) & 0xff) as u8);
    out.push(((v >> 16) & 0xff) as u8);
    out.push(((v >> 24) & 0xff) as u8);
    proof {
        assert(out@ =~= old(out)@ + le32_bytes(v));
    }
}

/// Reads the `u16` at `pos`.
pub fn get_le16(bytes: &Vec<u8>, pos: usize) -> (r: u16)
    requires
        pos + 2 <= bytes@.len(),
    ensures
        r == parse_le16(bytes@[pos as int], bytes@[pos as int + 1]),
{
    let n: usize = bytes.len();
    proof {
        assert(pos + 2 <= n);
    }
    let b0: u8 = bytes[pos];
    let b1: u8 = bytes[pos + 1];
    (b0 as u16) | ((b1 as u16) << 8)
}

/// Reads the `u32` at `pos`.
pub fn get_le32(bytes: &Vec<u8>, pos: usize) -> (r: u32)
    requires
        pos + 4 <= bytes@.len(),
    ensures
        r == parse_le32(
            bytes@[pos as int],
            bytes@[pos as int + 1],
            bytes@[pos as int + 2],
            bytes@[pos as int + 3],
        ),
{
    let n: usize = bytes.len();
    proof {
        assert(pos + 4 <= n);
    }
    let b0: u8 = bytes[pos];
    let b1: u8 = bytes[pos + 1];
    let b2: u8 = bytes[pos + 2];
    let b3: u8 = bytes[pos + 3];
    (b0 as u32) | ((b1 as u32) << 8) | ((b2 as u32) << 16) | ((b3 as u32) << 24)
}

} // verus!
