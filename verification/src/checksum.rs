use vstd::prelude::*;

verus! {

/// Modulus of both running sums: the largest prime below 2^16.
pub const MODULUS: u32 = 65521;

/// Low running sum over `bytes`: one plus the sum of the bytes, reduced.
pub open spec fn low_sum(bytes: Seq<u8>) -> int
    decreases bytes.len(),
{
    if bytes.len() == 0 {
        1
    } else {
        (low_sum(bytes.drop_last()) + bytes.last() as int) % (MODULUS as int)
    }
}

/// High running sum over `bytes`: the sum of all the low sums along the way, reduced.
pub open spec fn high_sum(bytes: Seq<u8>) -> int
    decreases bytes.len(),
{
    if bytes.len() == 0 {
        0
    } else {
        (high_sum(bytes.drop_last()) + low_sum(bytes)) % (MODULUS as int)
    }
}

/// The check value of `bytes`: the high sum in the upper sixteen bits, the low sum below it.
pub open spec fn digest(bytes: Seq<u8>) -> int {
    high_sum(bytes) * 65536 + low_sum(bytes)
}

/// Both sums stay below the modulus, so the check value fits in 32 bits.
pub proof fn lemma_sums_bounded(bytes: Seq<u8>)
    ensures
        0 <= low_sum(bytes) < MODULUS,
        0 <= high_sum(bytes) < MODULUS,
        0 <= digest(bytes) <= u32::MAX,
    decreases bytes.len(),
{
    if bytes.len() > 0 {
        lemma_sums_bounded(bytes.drop_last());
    }
}

/// Computes the check value of `bytes`.
pub fn compute(bytes: &Vec<u8>) -> (sum: u32)
    ensures
        sum == digest(bytes@),
{
    let mut low: u32 = 1;
    let mut high: u32 = 0;
    let mut i: usize = 0;
    while i < bytes.len()
        invariant
            i <= bytes.len(),
            low == low_sum(bytes@.take(i as int)),
            high == high_sum(bytes@.take(i as int)),
            low < MODULUS,
            high < MODULUS,
        decreases bytes.len() - i,
    {
        proof {
            assert(bytes@.take(i + 1).drop_last() =~= bytes@.take(i as int));
            assert(bytes@.take(i + 1).last() == bytes@[i as int]);
        }
        let b: u32 = bytes[i] as u32;
        low = (low + b) % MODULUS;
        high = (high + low) % MODULUS;
        i = i + 1;
    }
    proof {
        assert(bytes@.take(bytes.len() as int) =~= bytes@);
    }
    high * 65536 + low
}

} // verus!
