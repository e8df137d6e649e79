//! Sets of small integers as bits of machine words.

use vstd::prelude::*;

verus! {

/// Bit `b` of the word.
pub open spec fn has(word: u64, b: int) -> bool {
    (word >> (b as u64)) & 1u64 == 1u64
}

/// How many of the lowest `n` bits are set.
pub open spec fn ones(word: u64, n: nat) -> nat
    decreases n,
{
    if n == 0 {
        0
    } else {
        ones(word, (n - 1) as nat) + (if has(word, n - 1) {
            1nat
        } else {
            0
        })
    }
}

/// `k` is in the set.
pub open spec fn holds(words: Seq<u64>, k: int) -> bool {
    has(words[k / 64], k % 64)
}

/// `u64::count_ones`: the number of ones in the binary representation.
pub assume_specification[ u64::count_ones ](x: u64) -> (r: u32)
    ensures
        r == ones(x, 64),
;

pub proof fn lemma_ones_bound(word: u64, n: nat)
    ensures
        ones(word, n) <= n,
    decreases n,
{
    if n > 0 {
        lemma_ones_bound(word, (n - 1) as nat);
    }
}

/// Is bit `b` set?
pub fn test(word: u64, b: u32) -> (r: bool)
    requires
        b < 64,
    ensures
        r == has(word, b as int),
{
    let c: u64 = b as u64;
    assert((word & (1u64 << c) != 0) == ((word >> c) & 1u64 == 1u64)) by (bit_vector)
        requires
            c < 64,
    ;
    word & (1u64 << c) != 0
}

/// The word with bit `b` set as well.
pub fn with(word: u64, b: u32) -> (r: u64)
    requires
        b < 64,
    ensures
        forall|k: int| 0 <= k < 64 ==> #[trigger] has(r, k) == (has(word, k) || k == b),
{
    let c: u64 = b as u64;
    let r: u64 = word | (1u64 << c);
    assert forall|k: int| 0 <= k < 64 implies #[trigger] has(r, k) == (has(word, k) || k == b) by {
        let d: u64 = k as u64;
        assert(((word | (1u64 << c)) >> d) & 1u64 == 1u64 <==> ((word >> d) & 1u64 == 1u64 || d
            == c)) by (bit_vector)
            requires
                c < 64,
                d < 64,
        ;
    }
    r
}

/// How many of the lowest `b` bits are set.
pub fn count_below(word: u64, b: u32) -> (r: u32)
    requires
        b < 64,
    ensures
        r == ones(word, b as nat),
{
    let mask: u64 = if b == 0 {
        0
    } else {
        !0u64 >> ((64 - b) as u64)
    };
    proof {
        let c: u64 = b as u64;
        assert forall|k: int| 0 <= k < 64 implies #[trigger] has(word & mask, k) == (has(word, k)
            && k < b) by {
            let d: u64 = k as u64;
            if b == 0 {
                assert(((word & 0u64) >> d) & 1u64 == 0u64) by (bit_vector);
            } else {
                let e: u64 = (64 - b) as u64;
                assert(((word & (!0u64 >> e)) >> d) & 1u64 == 1u64 <==> ((word >> d) & 1u64 == 1u64
                    && d < c)) by (bit_vector)
                    requires
                        0 < c < 64,
                        e == 64 - c,
                        d < 64,
                ;
            }
        }
        lemma_masked(word, mask, b as nat, 64);
    }
    (word & mask).count_ones()
}

proof fn lemma_masked(word: u64, mask: u64, b: nat, n: nat)
    requires
        n <= 64,
        forall|k: int| 0 <= k < 64 ==> #[trigger] has(word & mask, k) == (has(word, k) && k < b),
    ensures
        ones(word & mask, n) == ones(word, if n < b {
            n
        } else {
            b
        }),
    decreases n,
{
    if n > 0 {
        lemma_masked(word, mask, b, (n - 1) as nat);
        assert(has(word & mask, n - 1) == (has(word, n - 1) && n - 1 < b));
    }
}

/// Put `k` into the set.
pub fn insert(words: &mut Vec<u64>, k: u32)
    requires
        k / 64 < old(words)@.len(),
    ensures
        final(words)@.len() == old(words)@.len(),
        forall|i: int|
            0 <= i < 64 * old(words)@.len() ==> #[trigger] holds(final(words)@, i) == (holds(
                old(words)@,
                i,
            ) || i == k),
{
    let ghost was = words@;
    let at: usize = (k / 64) as usize;
    let word: u64 = with(words[at], k % 64);
    words.set(at, word);
    assert forall|i: int| 0 <= i < 64 * was.len() implies #[trigger] holds(words@, i) == (holds(
        was,
        i,
    ) || i == k) by {
        if i / 64 == at {
            assert(has(word, i % 64) == (has(was[at as int], i % 64) || i % 64 == k % 64));
        }
    }
}

/// Is `k` in the set?
pub fn contains(words: &Vec<u64>, k: u32) -> (r: bool)
    requires
        k / 64 < words@.len(),
    ensures
        r == holds(words@, k as int),
{
    test(words[(k / 64) as usize], k % 64)
}

} // verus!
