//! Fixed-size frame primitives: the `read_count` counter that tells a
//! receiver how many frames carry one logical message, buffer prefix
//! writes, and delimiter search.
//!
//! Counters travel as fixed 4-byte little-endian words. Both peers run
//! the same build on the same host, so a single fixed byte order is a
//! safe constraint; it is chosen here once for both sides.
use vstd::prelude::*;
use vstd::bytes::{spec_u32_to_le_bytes, spec_u32_from_le_bytes, lemma_auto_spec_u32_to_from_le_bytes,
    u32_to_le_bytes, u32_from_le_bytes};
use crate::consts::{BLEN, NUM_READS_LEN};
use crate::errors::ProtoError;

verus! {

/// Number of frames needed to carry `n` payload bytes once the 4-byte
/// counter itself is counted in: the ceiling of `(n + 4) / BLEN`,
/// which is always at least 1.
pub open spec fn spec_read_count(n: int) -> int {
    (n + NUM_READS_LEN + (BLEN - 1)) / BLEN as int
}

/// The read counter is at least 1 and is exactly the ceiling of
/// `(NUM_READS_LEN + n) / BLEN`: it overshoots `n + NUM_READS_LEN`
/// by less than one full frame and covers it completely.
pub proof fn lemma_read_count_ceil(n: int)
    requires
        n >= 0,
    ensures
        spec_read_count(n) >= 1,
        spec_read_count(n) * BLEN >= n + NUM_READS_LEN,
        (spec_read_count(n) - 1) * BLEN < n + NUM_READS_LEN,
{
    let b = BLEN as int;
    let t = n + NUM_READS_LEN;
    let q = (t + (b - 1)) / b;
    assert(q * b >= t && (q - 1) * b < t && q >= 1) by (nonlinear_arith)
        requires
            b == 65528,
            t >= 4,
            q == (t + (b - 1)) / b,
    ;
}

/// Encodes the read counter for a message of `bytes` payload bytes:
/// the counter as its 4 wire bytes, and as a number. Refused only when
/// the counter would not fit in its fixed 4-byte field.
pub fn num_reads_encode(bytes: usize) -> (r: Result<([u8; 4], u32), ProtoError>)
    ensures
        r is Ok <==> spec_read_count(bytes as int) <= u32::MAX,
        r matches Ok((arr, nr)) ==> {
            &&& nr == spec_read_count(bytes as int)
            &&& nr >= 1
            &&& arr@ == spec_u32_to_le_bytes(nr)
        },
{
    let total: u128 = bytes as u128 + NUM_READS_LEN as u128 + (BLEN as u128 - 1);
    let count: u128 = total / BLEN as u128;
    if count > u32::MAX as u128 {
        return Err(ProtoError::TooLarge);
    }
    let nr: u32 = count as u32;
    proof {
        lemma_read_count_ceil(bytes as int);
    }
    let v = u32_to_le_bytes(nr);
    let arr: [u8; 4] = [v[0], v[1], v[2], v[3]];
    proof {
        assert(arr@ =~= spec_u32_to_le_bytes(nr));
    }
    Ok((arr, nr))
}

/// Decodes a 4-byte little-endian read counter.
pub fn num_reads_decode(bytes: [u8; 4]) -> (r: u32)
    ensures
        r == spec_u32_from_le_bytes(bytes@),
{
    u32_from_le_bytes(bytes.as_slice())
}

/// Encoding a counter and decoding the resulting bytes yields the
/// counter back, so the two peers always agree on the frame count.
pub proof fn lemma_num_reads_round_trip(nr: u32)
    ensures
        spec_u32_from_le_bytes(spec_u32_to_le_bytes(nr)) == nr,
{
    lemma_auto_spec_u32_to_from_le_bytes();
    assert(spec_u32_to_le_bytes(nr).len() == 4);
}

/// Overwrites the prefix of `slice` with `set`, leaving the rest as it
/// was, and returns the number of bytes written: the index of the first
/// byte not set by the call.
pub fn set_slice(slice: &mut Vec<u8>, set: &[u8]) -> (r: usize)
    requires
        set@.len() <= old(slice)@.len(),
    ensures
        r == set@.len(),
        final(slice)@.len() == old(slice)@.len(),
        final(slice)@ == set@ + old(slice)@.skip(set@.len() as int),
{
    let mut i: usize = 0;
    while i < set.len()
        invariant
            i <= set@.len() <= slice@.len(),
            slice@.len() == old(slice)@.len(),
            forall|j: int| 0 <= j < i ==> slice@[j] == set@[j],
            forall|j: int| i <= j < slice@.len() ==> slice@[j] == old(slice)@[j],
        decreases set@.len() - i,
    {
        slice[i] = set[i];
        i += 1;
    }
    proof {
        assert(slice@ =~= set@ + old(slice)@.skip(set@.len() as int));
    }
    i
}

/// Index of the first occurrence of `pat` in `buf`, if any.
pub fn find_delim(buf: &[u8], pat: u8) -> (r: Option<usize>)
    ensures
        r matches Some(i) ==> {
            &&& i < buf@.len()
            &&& buf@[i as int] == pat
            &&& forall|j: int| 0 <= j < i ==> buf@[j] != pat
        },
        r is None ==> forall|j: int| 0 <= j < buf@.len() ==> buf@[j] != pat,
{
    let mut i: usize = 0;
    while i < buf.len()
        invariant
            i <= buf@.len(),
            forall|j: int| 0 <= j < i ==> buf@[j] != pat,
        decreases buf@.len() - i,
    {
        if buf[i] == pat {
            return Some(i);
        }
        i += 1;
    }
    None
}

} // verus!
