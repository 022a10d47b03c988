//! Pure helpers on single storage words.
use vstd::prelude::*;

verus! {

/// Number of bits in one storage word.
pub const WORD_BITS: usize = 64;

/// Whether bit `j` of the word `w` is set.
pub open spec fn word_has(w: u64, j: u64) -> bool {
    (w >> j) & 1u64 == 1u64
}

/// Number of storage words needed to hold `nbits` bits.
pub open spec fn words_for(nbits: nat) -> nat {
    if nbits % 64 == 0 { nbits / 64 } else { nbits / 64 + 1 }
}

/// The mask of the word at index `elem` of a vector of `nbits` bits: on the
/// last word of a length that is not a whole number of words, the low
/// `nbits % 64` bits; all ones elsewhere.
pub open spec fn mask_spec(nbits: usize, elem: usize) -> u64 {
    if nbits % 64 != 0 && elem + 1 == words_for(nbits as nat) {
        ((1u64 << ((nbits % 64) as u64)) - 1) as u64
    } else {
        !0u64
    }
}

proof fn lemma_low_bits(k: u64, j: u64)
    by (bit_vector)
    requires
        0 < k < 64,
        j < 64,
    ensures
        word_has(((1u64 << k) - 1) as u64, j) <==> j < k,
{
}

proof fn lemma_all_ones(j: u64)
    by (bit_vector)
    requires
        j < 64,
    ensures
        word_has(!0u64, j),
{
}

/// Every bit below `nbits` lies under the mask of its word.
pub proof fn lemma_mask_covers(nbits: usize, p: nat)
    requires
        p < nbits,
    ensures
        word_has(mask_spec(nbits, (p / 64) as usize), (p % 64) as u64),
{
    let k = p / 64;
    let j = (p % 64) as u64;
    if nbits % 64 != 0 && k + 1 == words_for(nbits as nat) {
        assert(p % 64 < nbits % 64) by (nonlinear_arith)
            requires
                p < nbits,
                p / 64 == nbits / 64,
        ;
        lemma_low_bits((nbits % 64) as u64, j);
    } else {
        lemma_all_ones(j);
    }
}

/// The mask for word `elem` of an `nbits`-bit vector.
pub fn big_mask(nbits: usize, elem: usize) -> (r: u64)
    ensures
        r == mask_spec(nbits, elem),
        forall|j: u64|
            #![trigger word_has(r, j)]
            j < 64 ==> (word_has(r, j) <==> (nbits % 64 == 0 || elem + 1 != words_for(
                nbits as nat,
            ) || j < nbits % 64)),
{
    let rmd = nbits % 64;
    let nelems = nbits / 64 + if rmd == 0 { 0 } else { 1 };
    assert(rmd < 64 ==> (1u64 << (rmd as u64)) >= 1) by (bit_vector);
    let r = if rmd == 0 || elem.checked_add(1) != Some(nelems) {
        !0u64
    } else {
        (1u64 << (rmd as u64)) - 1
    };
    assert forall|j: u64| j < 64 implies (word_has(r, j) <==> (nbits % 64 == 0 || elem + 1
        != words_for(nbits as nat) || j < nbits % 64)) by {
        if rmd == 0 || elem + 1 != nelems {
            lemma_all_ones(j);
        } else {
            lemma_low_bits(rmd as u64, j);
        }
    }
    r
}

/// Number of set bits among the `k` low bits of `w`.
pub open spec fn bits_below(w: u64, k: nat) -> nat
    decreases k,
{
    if k == 0 {
        0
    } else {
        bits_below(w, (k - 1) as nat) + if word_has(w, (k - 1) as u64) { 1nat } else { 0nat }
    }
}

/// Number of set bits in `w`.
pub open spec fn popcount(w: u64) -> nat {
    bits_below(w, 64)
}

proof fn lemma_bits_below_le(w: u64, k: nat)
    ensures
        bits_below(w, k) <= k,
    decreases k,
{
    if k > 0 {
        lemma_bits_below_le(w, (k - 1) as nat);
    }
}

/// A word has at most 64 set bits.
pub proof fn lemma_popcount_bound(w: u64)
    ensures
        popcount(w) <= 64,
{
    lemma_bits_below_le(w, 64);
}

/// Counts the set bits of `w`.
pub fn count_ones(w: u64) -> (r: u64)
    ensures
        r == popcount(w),
        r <= 64,
{
    let mut bits: u64 = 0;
    let mut i: u64 = 0;
    while i < 64
        invariant
            i <= 64,
            bits == bits_below(w, i as nat),
            bits <= i,
        decreases 64 - i,
    {
        let b = (w >> i) & 1;
        assert(b == 0 || b == 1) by (bit_vector)
            requires
                b == (w >> i) & 1u64,
        ;
        bits = bits + b;
        i = i + 1;
    }
    bits
}

} // verus!
