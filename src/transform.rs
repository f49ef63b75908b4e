//! Byte-level conversions at the accelerator boundary: bits of a byte, and
//! little-endian 64-bit limbs of a 32-byte scalar.

use vstd::prelude::*;
use vstd::arithmetic::power2::pow2;
use crate::field::{le_value, lemma_le_value_bound, lemma_pow256};

verus! {

/// The eight bits of `data`, most significant first.
pub fn from_u8_to_bool(data: u8) -> (r: [bool; 8])
    ensures
        forall|i: int| 0 <= i < 8 ==> #[trigger] r[i] == ((data as int / pow2((7 - i) as nat) as int) % 2 == 1),
{
    let mut ret = [true; 8];
    let mut i: usize = 0;
    while i < 8
        invariant
            i <= 8,
            forall|k: int| i <= k < 8 ==> #[trigger] ret[k],
            forall|k: int| 0 <= k < i ==> #[trigger] ret[k] == ((data as int / pow2((7 - k) as nat) as int) % 2 == 1),
        decreases 8 - i,
    {
        let mid_data = data;
        let bit = (mid_data << (i as u8)) >> 7u8;
        proof {
            let s = i as u8;
            let t = (7 - s) as u8;
            assert(bit == (mid_data >> t) & 1u8) by (bit_vector)
                requires bit == (mid_data << s) >> 7u8, s < 8, t == 7u8 - s;
            vstd::bits::lemma_u8_shr_is_div(mid_data, t);
            assert((mid_data >> t) & 1u8 == (mid_data >> t) % 2) by (bit_vector);
            assert(bit as int == (data as int / pow2(t as nat) as int) % 2);
            assert(t as nat == (7 - i) as nat);
        }
        if bit == 0 {
            ret[i] = false;
        }
        i = i + 1;
    }
    ret
}

/// The little-endian integer of eight bytes.
pub fn from_u8_to_u64(data: &[u8]) -> (r: u64)
    requires
        data@.len() == 8,
    ensures
        r == le_value(data@),
{
    let mut ret: u64 = 0;
    let mut i: usize = 0;
    proof {
        assert(data@.skip(8) =~= Seq::<u8>::empty());
        vstd::arithmetic::power2::lemma2_to64();
    }
    while i < 8
        invariant
            i <= 8,
            data@.len() == 8,
            ret == pow2((8 * (8 - i)) as nat) * le_value(data@.skip(8 - i)),
        decreases 8 - i,
    {
        let k = 7 - i;
        let b = data[k];
        proof {
            let t = data@.skip(k as int);
            assert(t.drop_first() =~= data@.skip(k + 1));
            lemma_le_value_bound(t);
            lemma_pow256((8 - k) as nat);
            vstd::arithmetic::power2::lemma_pow2_adds((8 * k) as nat, 8);
            vstd::arithmetic::power2::lemma_pow2_adds((8 * k) as nat, (8 * (8 - k)) as nat);
            vstd::arithmetic::power2::lemma2_to64();
            vstd::arithmetic::power2::lemma2_to64_rest();
            let p = pow2((8 * k) as nat);
            let rest = le_value(data@.skip(k + 1));
            assert(p * le_value(t) == b * p + (p * 256) * rest) by (nonlinear_arith)
                requires le_value(t) == b + 256 * rest;
            assert(p * le_value(t) < p * pow2((8 * (8 - k)) as nat)) by (nonlinear_arith)
                requires le_value(t) < pow2((8 * (8 - k)) as nat), p > 0;
            vstd::arithmetic::power2::lemma_pow2_pos((8 * k) as nat);
            assert(b * p <= p * le_value(t)) by (nonlinear_arith)
                requires le_value(t) == b + 256 * rest, rest >= 0, p > 0, b >= 0;
            lemma_le_value_bound(data@.skip(k + 1));
            vstd::bits::lemma_u64_shl_is_mul(b as u64, (8 * k) as u64);
        }
        ret = ret + ((b as u64) << (8 * k) as u64);
        i = i + 1;
    }
    proof {
        assert(data@.skip(0) =~= data@);
        vstd::arithmetic::power2::lemma2_to64();
        assert(ret == 1 * le_value(data@));
    }
    ret
}

/// The four little-endian 64-bit limbs of 32 bytes.
pub fn from_u8_to_big_int256(data: &[u8]) -> (r: [u64; 4])
    requires
        data@.len() == 32,
    ensures
        forall|i: int| 0 <= i < 4 ==> #[trigger] r[i] == le_value(data@.subrange(8 * i, 8 * i + 8)),
{
    let mut ret = [0u64; 4];
    let mut i: usize = 0;
    while i < 4
        invariant
            i <= 4,
            data@.len() == 32,
            forall|k: int| 0 <= k < i ==> #[trigger] ret[k] == le_value(data@.subrange(8 * k, 8 * k + 8)),
        decreases 4 - i,
    {
        let limb = from_u8_to_u64(&data[8 * i..8 * i + 8]);
        ret[i] = limb;
        i = i + 1;
    }
    ret
}

/// A fixed-width coordinate encoding as its 32 bytes, or `None` for any
/// other length: a short coordinate cannot be padded, nor a long one cut,
/// without changing the point.
pub fn fixed_width_coordinate(bytes: &[u8]) -> (r: Option<[u8; 32]>)
    ensures
        r.is_some() <==> bytes@.len() == 32,
        r.is_some() ==> r.unwrap()@ == bytes@,
{
    if bytes.len() != 32 {
        return None;
    }
    let mut out = [0u8; 32];
    let mut i: usize = 0;
    while i < 32
        invariant
            i <= 32,
            bytes@.len() == 32,
            forall|k: int| 0 <= k < i ==> #[trigger] out[k] == bytes@[k],
        decreases 32 - i,
    {
        out[i] = bytes[i];
        i = i + 1;
    }
    proof {
        assert(out@ =~= bytes@);
    }
    Some(out)
}

} // verus!
