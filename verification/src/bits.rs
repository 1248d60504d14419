use vstd::prelude::*;

verus! {

/// Number of set bits in a 64-bit mask, written as a flat sum of the 64
/// individual bits so that bit-vector proofs can inline it; contracts use the
/// closed alias `popcnt64` so that this sum is not expanded in every query.
pub open spec fn popcount64(m: u64) -> int {
    ((m >> 0) & 1) + ((m >> 1) & 1) + ((m >> 2) & 1) + ((m >> 3) & 1) + ((m >> 4) & 1) + ((m >> 5) & 1) + ((m >> 6) & 1) + ((m >> 7) & 1) + ((m >> 8) & 1) + ((m >> 9) & 1) + ((m >> 10) & 1) + ((m >> 11) & 1) + ((m >> 12) & 1) + ((m >> 13) & 1) + ((m >> 14) & 1) + ((m >> 15) & 1) + ((m >> 16) & 1) + ((m >> 17) & 1) + ((m >> 18) & 1) + ((m >> 19) & 1) + ((m >> 20) & 1) + ((m >> 21) & 1) + ((m >> 22) & 1) + ((m >> 23) & 1) + ((m >> 24) & 1) + ((m >> 25) & 1) + ((m >> 26) & 1) + ((m >> 27) & 1) + ((m >> 28) & 1) + ((m >> 29) & 1) + ((m >> 30) & 1) + ((m >> 31) & 1) + ((m >> 32) & 1) + ((m >> 33) & 1) + ((m >> 34) & 1) + ((m >> 35) & 1) + ((m >> 36) & 1) + ((m >> 37) & 1) + ((m >> 38) & 1) + ((m >> 39) & 1) + ((m >> 40) & 1) + ((m >> 41) & 1) + ((m >> 42) & 1) + ((m >> 43) & 1) + ((m >> 44) & 1) + ((m >> 45) & 1) + ((m >> 46) & 1) + ((m >> 47) & 1) + ((m >> 48) & 1) + ((m >> 49) & 1) + ((m >> 50) & 1) + ((m >> 51) & 1) + ((m >> 52) & 1) + ((m >> 53) & 1) + ((m >> 54) & 1) + ((m >> 55) & 1) + ((m >> 56) & 1) + ((m >> 57) & 1) + ((m >> 58) & 1) + ((m >> 59) & 1) + ((m >> 60) & 1) + ((m >> 61) & 1) + ((m >> 62) & 1) + ((m >> 63) & 1)
}

/// Number of set bits in a 64-bit mask, as used by contracts.
pub closed spec fn popcnt64(m: u64) -> int {
    popcount64(m)
}

/// The closed population count agrees with its open bit-sum form.
pub proof fn lemma_popcnt_open(m: u64)
    ensures
        popcnt64(m) == popcount64(m),
{
}

/// Bit `i` of `m` is set.
pub open spec fn bit_set(m: u64, i: u64) -> bool {
    m & (1u64 << i) != 0
}

/// Population count by parallel bit summing, as in the classic SWAR scheme.
#[verifier::rlimit(100)]
pub fn hamming_wgt(n: u64) -> (r: i32)
    ensures
        r == popcnt64(n),
        0 <= r <= 64,
{
    assert((n & 0x5555555555555555) + ((n >> 1) & 0x5555555555555555) <= 0xFFFFFFFFFFFFFFFF)
        by (bit_vector);
    let a: u64 = (n & 0x5555555555555555) + ((n >> 1) & 0x5555555555555555);
    assert((a & 0x3333333333333333) + ((a >> 2) & 0x3333333333333333) <= 0xFFFFFFFFFFFFFFFF)
        by (bit_vector);
    let b: u64 = (a & 0x3333333333333333) + ((a >> 2) & 0x3333333333333333);
    assert((b & 0x0F0F0F0F0F0F0F0F) + ((b >> 4) & 0x0F0F0F0F0F0F0F0F) <= 0xFFFFFFFFFFFFFFFF)
        by (bit_vector);
    let c: u64 = (b & 0x0F0F0F0F0F0F0F0F) + ((b >> 4) & 0x0F0F0F0F0F0F0F0F);
    assert((c & 0x00FF00FF00FF00FF) + ((c >> 8) & 0x00FF00FF00FF00FF) <= 0xFFFFFFFFFFFFFFFF)
        by (bit_vector);
    let d: u64 = (c & 0x00FF00FF00FF00FF) + ((c >> 8) & 0x00FF00FF00FF00FF);
    assert((d & 0x0000FFFF0000FFFF) + ((d >> 16) & 0x0000FFFF0000FFFF) <= 0xFFFFFFFFFFFFFFFF)
        by (bit_vector);
    let e: u64 = (d & 0x0000FFFF0000FFFF) + ((d >> 16) & 0x0000FFFF0000FFFF);
    assert((e & 0x00000000FFFFFFFF) + ((e >> 32) & 0x00000000FFFFFFFF) <= 0xFFFFFFFFFFFFFFFF)
        by (bit_vector);
    let f: u64 = (e & 0x00000000FFFFFFFF) + ((e >> 32) & 0x00000000FFFFFFFF);
    assert(f == popcount64(n) && f <= 64) by (bit_vector)
        requires
            a == (n & 0x5555555555555555) + ((n >> 1) & 0x5555555555555555),
            b == (a & 0x3333333333333333) + ((a >> 2) & 0x3333333333333333),
            c == (b & 0x0F0F0F0F0F0F0F0F) + ((b >> 4) & 0x0F0F0F0F0F0F0F0F),
            d == (c & 0x00FF00FF00FF00FF) + ((c >> 8) & 0x00FF00FF00FF00FF),
            e == (d & 0x0000FFFF0000FFFF) + ((d >> 16) & 0x0000FFFF0000FFFF),
            f == (e & 0x00000000FFFFFFFF) + ((e >> 32) & 0x00000000FFFFFFFF),
    ;
    f as i32
}

/// Every 64-bit mask has between 0 and 64 set bits.
proof fn lemma_pop_range_bv(m: u64)
    by (bit_vector)
    ensures
        0 <= popcount64(m) <= 64,
{
}

/// Every 64-bit mask has between 0 and 64 set bits.
pub proof fn lemma_pop_range(m: u64)
    ensures
        0 <= popcnt64(m) <= 64,
{
    lemma_pop_range_bv(m);
}

/// Setting one clear bit raises the population count by exactly one.
#[verifier::rlimit(100)]
proof fn lemma_pop_insert_bv(m: u64, i: u64)
    by (bit_vector)
    requires
        i < 64,
        !bit_set(m, i),
    ensures
        popcount64(m | (1u64 << i)) == popcount64(m) + 1,
        bit_set(m | (1u64 << i), i),
{
}

/// Setting one clear bit raises the population count by exactly one.
pub proof fn lemma_pop_insert(m: u64, i: u64)
    requires
        i < 64,
        !bit_set(m, i),
    ensures
        popcnt64(m | (1u64 << i)) == popcnt64(m) + 1,
        bit_set(m | (1u64 << i), i),
{
    lemma_pop_insert_bv(m, i);
}

/// A nonzero mask has at least one set bit below 64.
pub proof fn lemma_nonzero_has_bit(m: u64)
    ensures
        m != 0 ==> exists|i: u64| i < 64 && bit_set(m, i),
    decreases m,
{
    if m != 0 {
        if m & 1 != 0 {
            assert(m & 1 != 0 ==> bit_set(m, 0)) by (bit_vector);
            assert(bit_set(m, 0));
        } else {
            assert(m != 0 && m & 1 == 0 ==> (m >> 1) != 0 && (m >> 1) < m) by (bit_vector);
            lemma_nonzero_has_bit(m >> 1);
            let i = choose|i: u64| i < 64 && bit_set(m >> 1, i);
            assert(i < 64 && bit_set(m >> 1, i) ==> i < 63 && bit_set(m, (i + 1) as u64))
                by (bit_vector);
            assert(bit_set(m, (i + 1) as u64));
        }
    }
}

} // verus!
