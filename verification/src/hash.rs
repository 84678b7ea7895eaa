//! The rolling hash that places lookup keys on the ring.

use vstd::prelude::*;

verus! {

/// Multiplier of the rolling hash.
pub const SEED: u32 = 313131;

/// The rolling hash of a byte string: starting from zero, each byte in turn
/// replaces the accumulator `h` by `h * SEED + byte`, reduced modulo 2^32.
pub open spec fn bkdr_spec(s: Seq<u8>) -> u32
    decreases s.len(),
{
    if s.len() == 0 {
        0u32
    } else {
        ((bkdr_spec(s.drop_last()) as int * (SEED as int) + s.last() as int) % 0x1_0000_0000) as u32
    }
}

/// Hashes `s` with the rolling hash, wrapping around on 32 bits.
pub fn bkdr(s: &[u8]) -> (h: u32)
    ensures
        h == bkdr_spec(s@),
{
    let mut h: u32 = 0;
    let mut i: usize = 0;
    while i < s.len()
        invariant
            i <= s.len(),
            h == bkdr_spec(s@.take(i as int)),
        decreases s.len() - i,
    {
        proof {
            assert(h as u64 * (SEED as u64) <= 0xffff_ffffu64 * 313131u64) by (nonlinear_arith)
                requires
                    h <= 0xffff_ffffu32,
                    SEED == 313131u32,
            ;
        }
        let wide: u64 = h as u64 * (SEED as u64) + s[i] as u64;
        proof {
            assert(s@.take(i + 1).drop_last() =~= s@.take(i as int));
        }
        h = (wide % 0x1_0000_0000) as u32;
        i += 1;
    }
    proof {
        assert(s@.take(i as int) =~= s@);
    }
    h
}

} // verus!
