//! Derivation of ring positions from MD5 digests.

use vstd::prelude::*;

verus! {

/// The 16 bytes of the MD5 digest of `data`.
pub uninterp spec fn md5_digest(data: Seq<u8>) -> Seq<u8>;

/// Calls `md5::compute` and takes the 16 bytes out of the `Digest` it returns.
/// Trusted: the bytes are the MD5 digest of `data`, which depends on `data` alone.
#[verifier::external_body]
fn md5_compute(data: &[u8]) -> (out: [u8; 16])
    ensures
        out@ == md5_digest(data@),
{
    md5::compute(data).0
}

/// The decimal digits of `n` in ASCII, most significant first, without padding.
pub open spec fn decimal(n: nat) -> Seq<u8>
    decreases n,
{
    if n < 10 {
        seq![(48 + n) as u8]
    } else {
        decimal(n / 10).push((48 + n % 10) as u8)
    }
}

/// The bytes digested for one round of a backend: the key, a `+`, and the
/// round index in decimal.
pub open spec fn round_input_spec(key: Seq<u8>, round: nat) -> Seq<u8> {
    key.push(0x2bu8) + decimal(round)
}

/// The `k`-th group of four bytes of `d`, read as a little-endian 32-bit integer.
pub open spec fn le_word(d: Seq<u8>, k: int) -> u32 {
    (d[4 * k] as int + 0x100 * (d[4 * k + 1] as int) + 0x1_0000 * (d[4 * k + 2] as int)
        + 0x100_0000 * (d[4 * k + 3] as int)) as u32
}

/// The four ring positions that one round of a backend contributes.
pub open spec fn round_words(key: Seq<u8>, round: nat) -> Seq<u32> {
    let d = md5_digest(round_input_spec(key, round));
    seq![le_word(d, 0), le_word(d, 1), le_word(d, 2), le_word(d, 3)]
}

/// Appends the decimal digits of `n` to `out`.
fn push_decimal(out: &mut Vec<u8>, n: usize)
    ensures
        final(out)@ == old(out)@ + decimal(n as nat),
    decreases n,
{
    if n >= 10 {
        push_decimal(out, n / 10);
    }
    let digit: u8 = (48 + n % 10) as u8;
    out.push(digit);
    proof {
        assert(final(out)@ =~= old(out)@ + decimal(n as nat));
    }
}

/// Builds the bytes digested for round `round` of the backend keyed by `key`.
pub fn round_input(key: &[u8], round: usize) -> (out: Vec<u8>)
    ensures
        out@ == round_input_spec(key@, round as nat),
{
    let mut out: Vec<u8> = Vec::new();
    out.extend_from_slice(key);
    out.push(0x2bu8);
    push_decimal(&mut out, round);
    proof {
        assert(out@ =~= round_input_spec(key@, round as nat));
    }
    out
}

/// Reads four bytes as a little-endian 32-bit integer.
fn le_u32(b0: u8, b1: u8, b2: u8, b3: u8) -> (w: u32)
    ensures
        w == b0 as int + 0x100 * (b1 as int) + 0x1_0000 * (b2 as int) + 0x100_0000 * (b3 as int),
{
    b0 as u32 + 0x100 * (b1 as u32) + 0x1_0000 * (b2 as u32) + 0x100_0000 * (b3 as u32)
}

/// Splits a 16-byte digest into four 32-bit integers, each decoded from four
/// consecutive bytes in little-endian order.
pub fn digest_words(d: &[u8; 16]) -> (w: [u32; 4])
    ensures
        w@ == seq![le_word(d@, 0), le_word(d@, 1), le_word(d@, 2), le_word(d@, 3)],
{
    let w = [
        le_u32(d[0], d[1], d[2], d[3]),
        le_u32(d[4], d[5], d[6], d[7]),
        le_u32(d[8], d[9], d[10], d[11]),
        le_u32(d[12], d[13], d[14], d[15]),
    ];
    proof {
        assert(w@ =~= seq![le_word(d@, 0), le_word(d@, 1), le_word(d@, 2), le_word(d@, 3)]);
    }
    w
}

/// Computes the four ring positions of round `round` of the backend keyed by
/// `key`: the MD5 digest of the round's input, split by [`digest_words`].
pub fn vnode_hashes(key: &[u8], round: usize) -> (w: [u32; 4])
    ensures
        w@ == round_words(key@, round as nat),
{
    let input = round_input(key, round);
    let d = md5_compute(input.as_slice());
    digest_words(&d)
}

} // verus!
