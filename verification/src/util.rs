//! Leaf utilities shared by the encoder and the decoder: block alignment and
//! the single-byte xor checksum over a filename's raw bytes.

use vstd::prelude::*;

verus! {

/// Fixed alignment unit: every section boundary of the archive lies on a
/// multiple of this block size.
pub const BLOCK: usize = 0x200;

/// Smallest multiple of `a` that is at least `v`.
pub open spec fn align_up(v: int, a: int) -> int {
    if v % a == 0 {
        v
    } else {
        v + a - v % a
    }
}

pub proof fn lemma_align_up(v: int, a: int)
    requires
        0 <= v,
        0 < a,
    ensures
        align_up(v, a) % a == 0,
        v <= align_up(v, a) < v + a,
        align_up(v, a) % a == 0 && v % a == 0 ==> align_up(v, a) == v,
{
    if v % a != 0 {
        assert(0 <= v % a < a);
        assert((v + a - v % a) % a == 0) by (nonlinear_arith)
            requires
                0 <= v,
                0 < a,
                v % a != 0,
        ;
    }
}

/// Round `value` up to the next multiple of `alignment` (identity when it is
/// already a multiple); used identically when the encoder pads a section and
/// when the decoder computes where the data blob starts.
pub fn align(value: usize, alignment: usize) -> (r: usize)
    requires
        alignment > 0,
        value + alignment <= usize::MAX,
    ensures
        r == align_up(value as int, alignment as int),
        r % alignment == 0,
        value <= r < value + alignment,
{
    proof {
        lemma_align_up(value as int, alignment as int);
    }
    let rem = value % alignment;
    if rem == 0 {
        value
    } else {
        value + (alignment - rem)
    }
}

/// Xor of all bytes of a sequence; the archive stores this checksum beside
/// every filename.
pub open spec fn xor_seq(s: Seq<u8>) -> u8
    decreases s.len(),
{
    if s.len() == 0 {
        0u8
    } else {
        xor_seq(s.drop_last()) ^ s.last()
    }
}

/// Single-byte checksum over a name's raw bytes, as stored in the directory.
pub fn xor_hash(data: &[u8]) -> (r: u8)
    ensures
        r == xor_seq(data@),
{
    let mut result: u8 = 0;
    let mut i: usize = 0;
    while i < data.len()
        invariant
            i <= data@.len(),
            result == xor_seq(data@.take(i as int)),
        decreases data@.len() - i,
    {
        result = result ^ data[i];
        proof {
            assert(data@.take(i + 1).drop_last() =~= data@.take(i as int));
            assert(data@.take(i + 1).last() == data@[i as int]);
        }
        i = i + 1;
    }
    proof {
        assert(data@.take(data@.len() as int) =~= data@);
    }
    result
}

/// Changing one byte of a name shifts its checksum by the xor of the old and
/// new byte values.
pub proof fn lemma_xor_seq_update(s: Seq<u8>, i: int, b: u8)
    requires
        0 <= i < s.len(),
    ensures
        xor_seq(s.update(i, b)) == xor_seq(s) ^ s[i] ^ b,
    decreases s.len(),
{
    let t = s.update(i, b);
    if i == s.len() - 1 {
        assert(t.drop_last() =~= s.drop_last());
        assert(t.last() == b);
        let x = xor_seq(s.drop_last());
        let c = s.last();
        assert(x ^ b == ((x ^ c) ^ c) ^ b) by (bit_vector);
    } else {
        assert(t.drop_last() =~= s.drop_last().update(i, b));
        assert(t.last() == s.last());
        lemma_xor_seq_update(s.drop_last(), i, b);
        let x = xor_seq(s.drop_last());
        let y = s.drop_last()[i];
        let l = s.last();
        assert(((x ^ y) ^ b) ^ l == (((x ^ l) ^ y) ^ b)) by (bit_vector);
    }
}

/// Corrupting a single bit of a name always changes its checksum, so the
/// stored hash detects any one-bit corruption.
pub proof fn lemma_hash_detects_bit_flip(s: Seq<u8>, i: int, k: u8)
    requires
        0 <= i < s.len(),
        k < 8,
    ensures
        xor_seq(s.update(i, (s[i] ^ (1u8 << k)) as u8)) != xor_seq(s),
{
    let b = (s[i] ^ (1u8 << k)) as u8;
    lemma_xor_seq_update(s, i, b);
    let h = xor_seq(s);
    let c = s[i];
    assert((h ^ c) ^ (c ^ (1u8 << k)) != h) by (bit_vector)
        requires
            k < 8,
    ;
}

} // verus!
