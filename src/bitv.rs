//! Bit storage over 64-bit words, and a set of integers built on it.
use vstd::prelude::*;
use crate::word::{big_mask, count_ones, mask_spec, popcount, word_has, bits_below};

verus! {

/// Whether bit `i` of the word sequence `s` is set.
pub open spec fn seq_has(s: Seq<u64>, i: nat) -> bool {
    i < s.len() * 64 && word_has(s[(i / 64) as int], (i % 64) as u64)
}

/// A word-parallel operator: how two words combine into one.
#[derive(Clone, Copy, Debug, PartialEq, Eq, Structural)]
pub enum Op {
    /// Bitwise or: a bit is set in either word.
    Union,
    /// Bitwise and: a bit is set in both words.
    Intersect,
    /// The second word, whatever the first.
    Assign,
    /// The first word without the bits of the second.
    Difference,
    /// Bitwise exclusive or: a bit is set in exactly one word.
    SymmetricDifference,
}

/// The word that `op` makes of `a` and `b`.
pub open spec fn apply_spec(op: Op, a: u64, b: u64) -> u64 {
    match op {
        Op::Union => a | b,
        Op::Intersect => a & b,
        Op::Assign => b,
        Op::Difference => a & !b,
        Op::SymmetricDifference => a ^ b,
    }
}

/// The membership that `op` makes of the memberships `a` and `b`.
pub open spec fn apply_bit(op: Op, a: bool, b: bool) -> bool {
    match op {
        Op::Union => a || b,
        Op::Intersect => a && b,
        Op::Assign => b,
        Op::Difference => a && !b,
        Op::SymmetricDifference => a != b,
    }
}

impl Op {
    /// Combines two words.
    pub fn apply(self, a: u64, b: u64) -> (r: u64)
        ensures
            r == apply_spec(self, a, b),
    {
        match self {
            Op::Union => a | b,
            Op::Intersect => a & b,
            Op::Assign => b,
            Op::Difference => a & !b,
            Op::SymmetricDifference => a ^ b,
        }
    }
}

proof fn lemma_word_ops(a: u64, b: u64, j: u64)
    by (bit_vector)
    requires
        j < 64,
    ensures
        word_has(a | b, j) == (word_has(a, j) || word_has(b, j)),
        word_has(a & b, j) == (word_has(a, j) && word_has(b, j)),
        word_has(a & !b, j) == (word_has(a, j) && !word_has(b, j)),
        word_has(a ^ b, j) == (word_has(a, j) != word_has(b, j)),
        word_has(!a, j) == !word_has(a, j),
        !word_has(0u64, j),
{
}

/// Each bit of a combined word is the operator applied to the operands' bits.
pub proof fn lemma_apply_bit(op: Op, a: u64, b: u64, j: u64)
    requires
        j < 64,
    ensures
        word_has(apply_spec(op, a, b), j) == apply_bit(op, word_has(a, j), word_has(b, j)),
{
    lemma_word_ops(a, b, j);
}

proof fn lemma_single_bit(a: u64, k: u64, j: u64)
    by (bit_vector)
    requires
        j < 64,
        k < 64,
    ensures
        word_has(a | (1u64 << k), j) == (j == k || word_has(a, j)),
        word_has(a & !(1u64 << k), j) == (j != k && word_has(a, j)),
{
}

/// Bit `i` of a word sequence sits at bit `i % 64` of word `i / 64`.
proof fn lemma_index(i: nat, k: nat, j: nat)
    requires
        j < 64,
        i == k * 64 + j,
    ensures
        i / 64 == k,
        i % 64 == j,
{
    assert(i / 64 == k && i % 64 == j) by (nonlinear_arith)
        requires
            j < 64,
            i == k * 64 + j,
    ;
}

/// The word `w` with bit `j` set to `x`.
pub open spec fn with_bit(w: u64, j: u64, x: bool) -> u64 {
    if x { w | (1u64 << j) } else { w & !(1u64 << j) }
}

/// The word that the masked combination leaves at a position: the masked result
/// where it differs from the masked old word, the old word otherwise.
pub open spec fn combined_word(a: u64, b: u64, m: u64, op: Op) -> u64 {
    let w0 = a & m;
    let w = apply_spec(op, w0, b & m) & m;
    if w0 != w { w } else { a }
}

/// Whether `a` and `b` agree on the bits of `m`.
pub open spec fn masked_eq(a: u64, b: u64, m: u64) -> bool {
    a & m == b & m
}

/// Whether `op` may turn the word `a` into the word `b`.
pub open spec fn produces<F: Fn(u64) -> (u64, bool)>(op: F, a: u64, b: u64) -> bool {
    exists|f: bool| op.ensures((a,), (b, f))
}

/// A sequence of 64-bit words holding a bit vector whose length is given to
/// each operation that depends on it.
#[derive(Clone, Debug, PartialEq, Eq, PartialOrd, Ord, Hash)]
pub struct BigBitv {
    storage: Vec<u64>,
}

impl View for BigBitv {
    type V = Seq<u64>;

    closed spec fn view(&self) -> Seq<u64> {
        self.storage@
    }
}

impl BigBitv {
    /// Wraps the given words.
    pub fn new(storage: Vec<u64>) -> (r: BigBitv)
        ensures
            r@ == storage@,
    {
        BigBitv { storage }
    }

    /// Combines `b` into `self` word by word under the mask of an `nbits`-bit
    /// vector, writing back each word whose masked value changed. Returns
    /// whether any word changed.
    pub fn process(&mut self, b: &BigBitv, nbits: usize, op: Op) -> (changed: bool)
        requires
            old(self)@.len() == b@.len(),
        ensures
            final(self)@.len() == old(self)@.len(),
            forall|i: int|
                0 <= i < b@.len() ==> #[trigger] final(self)@[i] == combined_word(
                    old(self)@[i],
                    b@[i],
                    mask_spec(nbits, i as usize),
                    op,
                ),
            forall|i: nat|
                i < nbits && i < b@.len() * 64 ==> #[trigger] seq_has(final(self)@, i)
                    == apply_bit(op, seq_has(old(self)@, i), seq_has(b@, i)),
            changed == (final(self)@ != old(self)@),
    {
        let len = b.storage.len();
        let mut changed = false;
        let mut i: usize = 0;
        while i < len
            invariant
                len == b@.len(),
                self@.len() == len,
                old(self)@.len() == len,
                i <= len,
                forall|k: int|
                    0 <= k < i ==> #[trigger] self@[k] == combined_word(
                        old(self)@[k],
                        b@[k],
                        mask_spec(nbits, k as usize),
                        op,
                    ),
                forall|k: int| i <= k < len ==> #[trigger] self@[k] == old(self)@[k],
                changed == (exists|k: int| 0 <= k < i && #[trigger] self@[k] != old(self)@[k]),
            decreases len - i,
        {
            let mask = big_mask(nbits, i);
            let w0 = self.storage[i] & mask;
            let w1 = b.storage[i] & mask;
            let w = op.apply(w0, w1) & mask;
            if w0 != w {
                let ghost a = self@[i as int];
                let ghost x = apply_spec(op, w0, w1);
                assert(w != a) by (bit_vector)
                    requires
                        w0 == a & mask,
                        w == x & mask,
                        w0 != w,
                ;
                changed = true;
                self.storage[i] = w;
                assert(self@[i as int] != old(self)@[i as int]);
            } else {
                assert(self@[i as int] == old(self)@[i as int]);
                assert(forall|k: int| 0 <= k < i + 1 && self@[k] != old(self)@[k] ==> k < i);
            }
            i = i + 1;
        }
        assert forall|p: nat|
            p < nbits && p < b@.len() * 64 implies #[trigger] seq_has(self@, p) == apply_bit(
                op,
                seq_has(old(self)@, p),
                seq_has(b@, p),
            ) by {
            let k = p / 64;
            let j = (p % 64) as u64;
            let m = mask_spec(nbits, k as usize);
            let a = old(self)@[k as int];
            let c = b@[k as int];
            assert(word_has(m, j)) by {
                crate::word::lemma_mask_covers(nbits, p);
            }
            lemma_word_ops(a, m, j);
            lemma_word_ops(c, m, j);
            lemma_apply_bit(op, a & m, c & m, j);
            lemma_word_ops(apply_spec(op, a & m, c & m), m, j);
        }
        if !changed {
            assert(self@ =~= old(self)@);
        }
        changed
    }

    /// Replaces each word with the word that `op` gives for it, in order.
    /// Returns the flag that `op` gave for the last word (`false` when there
    /// are no words).
    pub fn each_storage<F: Fn(u64) -> (u64, bool)>(&mut self, op: &F) -> (r: bool)
        requires
            forall|w: u64| op.requires((w,)),
        ensures
            final(self)@.len() == old(self)@.len(),
            forall|i: int|
                0 <= i < old(self)@.len() ==> #[trigger] produces(*op, old(self)@[i], final(self)@[i]),
            old(self)@.len() == 0 ==> !r,
            old(self)@.len() > 0 ==> op.ensures(
                (old(self)@.last(),),
                (final(self)@.last(), r),
            ),
    {
        let len = self.storage.len();
        let mut r = false;
        let mut i: usize = 0;
        let ghost mut flags: Seq<bool> = Seq::empty();
        while i < len
            invariant
                self@.len() == len,
                old(self)@.len() == len,
                i <= len,
                flags.len() == i,
                forall|w: u64| op.requires((w,)),
                forall|k: int|
                    0 <= k < i ==> op.ensures((old(self)@[k],), (#[trigger] self@[k], flags[k])),
                forall|k: int| i <= k < len ==> #[trigger] self@[k] == old(self)@[k],
                i == 0 ==> !r,
                i > 0 ==> op.ensures((old(self)@[i - 1],), (self@[i - 1], r)),
            decreases len - i,
        {
            let (w, f) = op(self.storage[i]);
            self.storage[i] = w;
            r = f;
            proof {
                flags = flags.push(f);
            }
            i = i + 1;
        }
        assert forall|k: int| 0 <= k < len implies #[trigger] produces(*op, old(self)@[k], self@[k]) by {
            assert(op.ensures((old(self)@[k],), (self@[k], flags[k])));
        }
        r
    }

    /// Flips every word, bits beyond any logical length included.
    pub fn negate(&mut self)
        ensures
            final(self)@.len() == old(self)@.len(),
            forall|i: int| 0 <= i < old(self)@.len() ==> #[trigger] final(self)@[i] == !old(self)@[i],
    {
        let len = self.storage.len();
        let mut i: usize = 0;
        while i < len
            invariant
                self@.len() == len,
                old(self)@.len() == len,
                i <= len,
                forall|k: int| 0 <= k < i ==> #[trigger] self@[k] == !old(self)@[k],
                forall|k: int| i <= k < len ==> #[trigger] self@[k] == old(self)@[k],
            decreases len - i,
        {
            let w = self.storage[i];
            self.storage[i] = !w;
            i = i + 1;
        }
    }

    /// Masked union with `b`; returns whether `self` changed.
    pub fn union(&mut self, b: &BigBitv, nbits: usize) -> (changed: bool)
        requires
            old(self)@.len() == b@.len(),
        ensures
            final(self)@.len() == old(self)@.len(),
            forall|i: nat|
                i < nbits && i < b@.len() * 64 ==> #[trigger] seq_has(final(self)@, i) == (
                seq_has(old(self)@, i) || seq_has(b@, i)),
            forall|i: int|
                0 <= i < b@.len() ==> #[trigger] final(self)@[i] == combined_word(
                    old(self)@[i],
                    b@[i],
                    mask_spec(nbits, i as usize),
                    Op::Union,
                ),
            changed == (final(self)@ != old(self)@),
    {
        self.process(b, nbits, Op::Union)
    }

    /// Masked intersection with `b`; returns whether `self` changed.
    pub fn intersect(&mut self, b: &BigBitv, nbits: usize) -> (changed: bool)
        requires
            old(self)@.len() == b@.len(),
        ensures
            final(self)@.len() == old(self)@.len(),
            forall|i: nat|
                i < nbits && i < b@.len() * 64 ==> #[trigger] seq_has(final(self)@, i) == (
                seq_has(old(self)@, i) && seq_has(b@, i)),
            forall|i: int|
                0 <= i < b@.len() ==> #[trigger] final(self)@[i] == combined_word(
                    old(self)@[i],
                    b@[i],
                    mask_spec(nbits, i as usize),
                    Op::Intersect,
                ),
            changed == (final(self)@ != old(self)@),
    {
        self.process(b, nbits, Op::Intersect)
    }

    /// Masked assignment of `b` to `self`; returns whether `self` changed.
    pub fn become_(&mut self, b: &BigBitv, nbits: usize) -> (changed: bool)
        requires
            old(self)@.len() == b@.len(),
        ensures
            final(self)@.len() == old(self)@.len(),
            forall|i: nat|
                i < nbits && i < b@.len() * 64 ==> #[trigger] seq_has(final(self)@, i) == seq_has(
                    b@,
                    i,
                ),
            forall|i: int|
                0 <= i < b@.len() ==> #[trigger] final(self)@[i] == combined_word(
                    old(self)@[i],
                    b@[i],
                    mask_spec(nbits, i as usize),
                    Op::Assign,
                ),
            changed == (final(self)@ != old(self)@),
    {
        self.process(b, nbits, Op::Assign)
    }

    /// Masked difference: clears in `self` the bits set in `b`; returns
    /// whether `self` changed.
    pub fn difference(&mut self, b: &BigBitv, nbits: usize) -> (changed: bool)
        requires
            old(self)@.len() == b@.len(),
        ensures
            final(self)@.len() == old(self)@.len(),
            forall|i: nat|
                i < nbits && i < b@.len() * 64 ==> #[trigger] seq_has(final(self)@, i) == (
                seq_has(old(self)@, i) && !seq_has(b@, i)),
            forall|i: int|
                0 <= i < b@.len() ==> #[trigger] final(self)@[i] == combined_word(
                    old(self)@[i],
                    b@[i],
                    mask_spec(nbits, i as usize),
                    Op::Difference,
                ),
            changed == (final(self)@ != old(self)@),
    {
        self.process(b, nbits, Op::Difference)
    }

    /// Reads bit `i`.
    pub fn get(&self, i: usize) -> (r: bool)
        requires
            i / 64 < self@.len(),
        ensures
            r == seq_has(self@, i as nat),
    {
        let w = i / 64;
        let b = (i % 64) as u64;
        let word = self.storage[w];
        let x = 1 & (word >> b);
        assert(x == (word >> b) & 1u64) by (bit_vector)
            requires
                x == 1u64 & (word >> b),
        ;
        x == 1
    }

    /// Sets bit `i` to `x`.
    pub fn set(&mut self, i: usize, x: bool)
        requires
            i / 64 < old(self)@.len(),
        ensures
            final(self)@ == old(self)@.update((i / 64) as int, with_bit(old(self)@[(i / 64) as int], (i % 64) as u64, x)),
            forall|p: nat| #[trigger] seq_has(final(self)@, p) == if p == i { x } else { seq_has(old(self)@, p) },
    {
        let w = i / 64;
        let b = (i % 64) as u64;
        let flag = 1u64 << b;
        let v = if x {
            self.storage[w] | flag
        } else {
            self.storage[w] & !flag
        };
        self.storage[w] = v;
        assert forall|p: nat| #[trigger] seq_has(self@, p) == if p == i { x } else { seq_has(old(self)@, p) } by {
            if p < self@.len() * 64 {
                lemma_index(p, p / 64, p % 64);
                lemma_single_bit(old(self)@[(p / 64) as int], b, (p % 64) as u64);
                if p / 64 == w && p % 64 == i % 64 {
                    lemma_index(i as nat, w as nat, (i % 64) as nat);
                    assert(p == i) by (nonlinear_arith)
                        requires p / 64 == i / 64, p % 64 == i % 64;
                }
            }
        }
    }

    /// Compares the words of `b` with the first words of `self` under the
    /// mask of an `nbits`-bit vector. Words of `self` past the length of `b`
    /// take no part.
    pub fn equals(&self, b: &BigBitv, nbits: usize) -> (r: bool)
        requires
            b@.len() <= self@.len(),
        ensures
            r == forall|i: int|
                0 <= i < b@.len() ==> #[trigger] masked_eq(self@[i], b@[i], mask_spec(nbits, i as usize)),
    {
        let len = b.storage.len();
        let mut i: usize = 0;
        while i < len
            invariant
                len == b@.len(),
                len <= self@.len(),
                i <= len,
                forall|k: int|
                    0 <= k < i ==> #[trigger] masked_eq(self@[k], b@[k], mask_spec(nbits, k as usize)),
            decreases len - i,
        {
            let mask = big_mask(nbits, i);
            let x = self.storage[i];
            let y = b.storage[i];
            assert((mask & x == mask & y) == ((x & mask) == (y & mask))) by (bit_vector);
            if mask & x != mask & y {
                assert(!masked_eq(x, y, mask));
                assert(!masked_eq(self@[i as int], b@[i as int], mask_spec(nbits, (i as int) as usize)));
                return false;
            }
            i = i + 1;
        }
        true
    }
}

/// Total number of set bits over all words of `s`.
pub open spec fn total_pop(s: Seq<u64>) -> nat
    decreases s.len(),
{
    if s.len() == 0 {
        0
    } else {
        total_pop(s.drop_last()) + popcount(s.last())
    }
}

/// `s` followed by zero words up to length `n`.
pub open spec fn zero_extend(s: Seq<u64>, n: nat) -> Seq<u64> {
    s + Seq::new((n - s.len()) as nat, |_i: int| 0u64)
}

/// `s` with bit `i` set to `x`.
pub open spec fn seq_with_bit(s: Seq<u64>, i: nat, x: bool) -> Seq<u64> {
    s.update((i / 64) as int, with_bit(s[(i / 64) as int], (i % 64) as u64, x))
}

/// `s` without its trailing zero words, keeping at least one word.
pub open spec fn trim_zeros(s: Seq<u64>) -> Seq<u64>
    decreases s.len(),
{
    if s.len() > 1 && s.last() == 0 {
        trim_zeros(s.drop_last())
    } else {
        s
    }
}

/// Word count after inserting `v` into a set of `len` words: unchanged when
/// `v` already fits, else enough for `v` and at least half as many again.
pub open spec fn grow_len(len: nat, v: nat) -> nat {
    if v >= len * 64 {
        (if v >= len * 32 { v } else { len * 32 }) / 64 + 1
    } else {
        len
    }
}

proof fn lemma_bits_below_zero(k: nat)
    requires
        k <= 64,
    ensures
        bits_below(0u64, k) == 0,
    decreases k,
{
    if k > 0 {
        lemma_word_ops(0, 0, (k - 1) as u64);
        lemma_bits_below_zero((k - 1) as nat);
    }
}

/// Words that differ in bit `j` alone differ in count by that bit.
proof fn lemma_bits_below_one(a: u64, b: u64, j: u64, k: nat)
    requires
        j < 64,
        k <= 64,
        forall|t: u64| t < 64 && t != j ==> #[trigger] word_has(a, t) == word_has(b, t),
    ensures
        bits_below(b, k) + (if j < k && word_has(a, j) { 1int } else { 0int }) == bits_below(a, k)
            + (if j < k && word_has(b, j) { 1int } else { 0int }),
    decreases k,
{
    if k > 0 {
        lemma_bits_below_one(a, b, j, (k - 1) as nat);
        assert(word_has(a, (k - 1) as u64) == word_has(b, (k - 1) as u64) || k - 1 == j);
    }
}

proof fn lemma_popcount_with_bit(w: u64, j: u64, x: bool)
    requires
        j < 64,
    ensures
        popcount(with_bit(w, j, x)) + (if word_has(w, j) { 1int } else { 0int }) == popcount(w)
            + (if x { 1int } else { 0int }),
{
    let v = with_bit(w, j, x);
    assert forall|t: u64| t < 64 && t != j implies #[trigger] word_has(w, t) == word_has(v, t) by {
        lemma_single_bit(w, j, t);
    }
    lemma_single_bit(w, j, j);
    lemma_bits_below_one(w, v, j, 64);
}

proof fn lemma_total_pop_update(s: Seq<u64>, i: int, v: u64)
    requires
        0 <= i < s.len(),
    ensures
        total_pop(s.update(i, v)) + popcount(s[i]) == total_pop(s) + popcount(v),
    decreases s.len(),
{
    let t = s.update(i, v);
    if i == s.len() - 1 {
        assert(t.drop_last() =~= s.drop_last());
    } else {
        assert(t.drop_last() =~= s.drop_last().update(i, v));
        lemma_total_pop_update(s.drop_last(), i, v);
    }
}

proof fn lemma_total_pop_bound(s: Seq<u64>)
    ensures
        total_pop(s) <= 64 * s.len(),
    decreases s.len(),
{
    if s.len() > 0 {
        lemma_total_pop_bound(s.drop_last());
        crate::word::lemma_popcount_bound(s.last());
    }
}

proof fn lemma_total_pop_zero_extend(s: Seq<u64>, n: nat)
    requires
        n >= s.len(),
    ensures
        total_pop(zero_extend(s, n)) == total_pop(s),
        forall|p: nat| #[trigger] seq_has(zero_extend(s, n), p) == seq_has(s, p),
        zero_extend(s, n).len() == n,
    decreases n,
{
    let z = zero_extend(s, n);
    if n > s.len() {
        lemma_total_pop_zero_extend(s, (n - 1) as nat);
        assert(z.drop_last() =~= zero_extend(s, (n - 1) as nat));
        lemma_bits_below_zero(64);
        assert forall|p: nat| #[trigger] seq_has(z, p) == seq_has(s, p) by {
            if p < n * 64 {
                let k = p / 64;
                lemma_index(p, k, p % 64);
                lemma_word_ops(0, 0, (p % 64) as u64);
                if k < s.len() {
                    assert(z[k as int] == s[k as int]);
                } else {
                    assert(z[k as int] == 0);
                    assert(p >= s.len() * 64) by (nonlinear_arith)
                        requires k >= s.len(), k == p / 64;
                }
            } else {
                assert(p >= s.len() * 64) by (nonlinear_arith)
                    requires p >= n * 64, n >= s.len();
            }
        }
    } else {
        assert(z =~= s);
    }
}

proof fn lemma_trim_zeros(s: Seq<u64>)
    requires
        s.len() >= 1,
    ensures
        total_pop(trim_zeros(s)) == total_pop(s),
        forall|p: nat| #[trigger] seq_has(trim_zeros(s), p) == seq_has(s, p),
        1 <= trim_zeros(s).len() <= s.len(),
    decreases s.len(),
{
    if s.len() > 1 && s.last() == 0 {
        let d = s.drop_last();
        lemma_trim_zeros(d);
        lemma_bits_below_zero(64);
        assert(zero_extend(d, s.len()) =~= s);
        lemma_total_pop_zero_extend(d, s.len());
    }
}

/// Bit `p` of a sequence is in range exactly when its word is.
proof fn lemma_in_range(p: nat, n: nat)
    ensures
        (p < n * 64) == (p / 64 < n),
{
    assert((p < n * 64) == (p / 64 < n)) by (nonlinear_arith);
}

/// The integers `base + j`, for `j < k`, whose bit `j` is set in `w`.
pub open spec fn word_elems(w: u64, base: nat, k: nat) -> Set<usize> {
    Set::new(|x: usize| base <= x && x < base + k && word_has(w, (x - base) as u64))
}

/// The integers whose bit is set in `s`.
pub open spec fn seq_elems(s: Seq<u64>) -> Set<usize> {
    Set::new(|x: usize| seq_has(s, x as nat))
}

proof fn lemma_word_elems(w: u64, base: nat, k: nat)
    requires
        k <= 64,
        base + 64 <= usize::MAX + 1,
    ensures
        word_elems(w, base, k).finite(),
        word_elems(w, base, k).len() == bits_below(w, k),
    decreases k,
{
    let cur = word_elems(w, base, k);
    if k == 0 {
        assert(cur =~= Set::<usize>::empty());
    } else {
        let prev = word_elems(w, base, (k - 1) as nat);
        lemma_word_elems(w, base, (k - 1) as nat);
        let y = (base + k - 1) as usize;
        assert(!prev.contains(y));
        if word_has(w, (k - 1) as u64) {
            assert(cur =~= prev.insert(y));
        } else {
            assert(cur =~= prev);
        }
    }
}

/// Each set bit of a word sequence is one element: the integers whose bit is
/// set are finitely many, as many as the bits counted one word at a time.
pub proof fn lemma_seq_elems(s: Seq<u64>)
    requires
        s.len() * 64 <= usize::MAX + 1,
    ensures
        seq_elems(s).finite(),
        seq_elems(s).len() == total_pop(s),
    decreases s.len(),
{
    if s.len() == 0 {
        assert(seq_elems(s) =~= Set::<usize>::empty());
    } else {
        let d = s.drop_last();
        let n = s.len();
        let base = ((n - 1) * 64) as nat;
        assert(d.len() * 64 <= usize::MAX + 1 && base + 64 == n * 64) by (nonlinear_arith)
            requires d.len() == n - 1, n >= 1, n * 64 <= usize::MAX + 1, base == (n - 1) * 64;
        lemma_seq_elems(d);
        lemma_word_elems(s.last(), base, 64);
        let lo = seq_elems(d);
        let hi = word_elems(s.last(), base, 64);
        assert forall|x: usize| #[trigger] seq_elems(s).contains(x) == (lo + hi).contains(x) by {
            let p = x as nat;
            lemma_in_range(p, n);
            lemma_in_range(p, d.len());
            lemma_index(p, p / 64, p % 64);
            if p / 64 == n - 1 {
                assert(p - base == p % 64);
            }
        }
        assert(seq_elems(s) =~= lo + hi);
        assert forall|x: usize| lo.contains(x) implies !hi.contains(x) by {
            lemma_in_range(x as nat, d.len());
        }
        assert(lo.disjoint(hi));
        vstd::set_lib::lemma_set_disjoint_lens(lo, hi);
    }
}

/// Calls `f` on `base + j` for each set bit `j` of `bits`, from the low end,
/// and stops at the first call that returns `false`. Returns whether every
/// call returned `true`.
fn iterate_bits<F: Fn(usize) -> bool>(base: usize, bits: u64, f: &F) -> (r: bool)
    requires
        base + 63 <= usize::MAX,
        forall|x: usize| f.requires((x,)),
    ensures
        r ==> forall|j: usize| j < 64 && #[trigger] word_has(bits, j as u64) ==> f.ensures(((base + j) as usize,), true),
        !r ==> exists|j: usize|
            j < 64 && #[trigger] word_has(bits, j as u64) && f.ensures(((base + j) as usize,), false) && forall|t: usize|
                t < j && #[trigger] word_has(bits, t as u64) ==> f.ensures(((base + t) as usize,), true),
{
    if bits == 0 {
        assert forall|j: usize| j < 64 implies !#[trigger] word_has(bits, j as u64) by {
            lemma_word_ops(0, 0, j as u64);
        }
        return true;
    }
    let mut i: usize = 0;
    while i < 64
        invariant
            base + 63 <= usize::MAX,
            forall|x: usize| f.requires((x,)),
            i <= 64,
            forall|j: usize| j < i && #[trigger] word_has(bits, j as u64) ==> f.ensures(((base + j) as usize,), true),
        decreases 64 - i,
    {
        let ii = i as u64;
        assert(((bits & (1u64 << ii)) != 0) == word_has(bits, ii)) by (bit_vector)
            requires ii < 64;
        if bits & (1u64 << ii) != 0 {
            if !f(base + i) {
                return false;
            }
        }
        i = i + 1;
    }
    true
}

/// A set of integers held as the set bits of a growable word sequence,
/// with its exact number of elements.
#[derive(Clone, Debug, PartialEq, Eq, Hash)]
pub struct BitvSet {
    size: usize,
    bitv: BigBitv,
}

impl View for BitvSet {
    type V = Set<usize>;

    closed spec fn view(&self) -> Set<usize> {
        Set::new(|x: usize| seq_has(self.bitv@, x as nat))
    }
}

impl BitvSet {
    /// The words of the storage.
    pub closed spec fn words(&self) -> Seq<u64> {
        self.bitv@
    }

    /// The stored number of elements.
    pub closed spec fn size(&self) -> nat {
        self.size as nat
    }

    /// Number of integers the storage can hold without growing.
    pub open spec fn capacity_spec(&self) -> nat {
        self.words().len() * 64
    }

    /// The set's invariant: at least one word, a capacity that fits in
    /// `usize`, and a stored size equal to the number of set bits.
    pub closed spec fn wf(&self) -> bool {
        &&& self.bitv@.len() >= 1
        &&& self.bitv@.len() * 64 <= usize::MAX
        &&& self.size == total_pop(self.bitv@)
    }

    /// Membership is exactly the bits set in the words.
    pub proof fn lemma_view(&self)
        ensures
            forall|x: usize| #[trigger] self@.contains(x) == seq_has(self.words(), x as nat),
    {
    }

    /// The invariant, seen from outside: at least one word, a capacity that
    /// fits in `usize`, and a stored size equal to a full recount of the set
    /// bits, which is the number of elements. Every operation that changes a set keeps the invariant, so the
    /// size stays exact over any sequence of them.
    pub proof fn lemma_size_is_recount(&self)
        requires
            self.wf(),
        ensures
            self.words().len() >= 1,
            self.capacity_spec() <= usize::MAX,
            self.size() == total_pop(self.words()),
            self@.finite(),
            self@.len() == self.size(),
    {
        lemma_seq_elems(self.bitv@);
        assert(self@ =~= seq_elems(self.bitv@));
    }

    /// An empty set of one word.
    pub fn new() -> (r: BitvSet)
        ensures
            r.wf(),
            r@ == Set::<usize>::empty(),
            r.words() == seq![0u64],
    {
        let r = BitvSet { size: 0, bitv: BigBitv::new(vec![0u64]) };
        proof {
            lemma_bits_below_zero(64);
            assert(r.bitv@ =~= seq![0u64]);
            assert(r.bitv@.drop_last() =~= Seq::<u64>::empty());
            assert(total_pop(Seq::<u64>::empty()) == 0);
            assert(total_pop(r.bitv@) == 0);
            assert forall|x: usize| !#[trigger] r@.contains(x) by {
                lemma_word_ops(0, 0, ((x as nat) % 64) as u64);
            }
            assert(r@ =~= Set::<usize>::empty());
        }
        r
    }

    /// Number of integers the storage holds without growing.
    pub fn capacity(&self) -> (r: usize)
        requires
            self.wf(),
        ensures
            r == self.capacity_spec(),
    {
        self.bitv.storage.len() * 64
    }

    /// Whether `value` is in the set; values past the capacity are not.
    pub fn contains(&self, value: &usize) -> (r: bool)
        requires
            self.wf(),
        ensures
            r == self@.contains(*value),
    {
        proof {
            lemma_in_range(*value as nat, self.bitv@.len());
        }
        *value < self.bitv.storage.len() * 64 && self.bitv.get(*value)
    }

    /// Adds `value`; returns whether it was absent. A value past the
    /// capacity first grows the storage with zero words to
    /// `max(value, capacity / 2) / 64 + 1` words. The value must leave room
    /// below `usize::MAX` for the grown capacity.
    pub fn insert(&mut self, value: usize) -> (r: bool)
        requires
            old(self).wf(),
            value <= usize::MAX - 64,
        ensures
            final(self).wf(),
            r == !old(self)@.contains(value),
            final(self)@ == old(self)@.insert(value),
            final(self).words() == if old(self)@.contains(value) {
                old(self).words()
            } else {
                seq_with_bit(
                    zero_extend(old(self).words(), grow_len(old(self).words().len(), value as nat)),
                    value as nat,
                    true,
                )
            },
    {
        if self.contains(&value) {
            return false;
        }
        let ghost s0 = self.bitv@;
        let ghost len0 = s0.len();
        let nbits = self.capacity();
        if value >= nbits {
            let half = nbits / 2;
            let m = if value >= half { value } else { half };
            let newsize = m / 64 + 1;
            assert(half == len0 * 32);
            assert(newsize * 64 <= usize::MAX && newsize > len0 && value / 64 < newsize)
                by (nonlinear_arith)
                requires
                    nbits == len0 * 64,
                    len0 >= 1,
                    nbits <= usize::MAX,
                    m == value || m == half,
                    m >= value,
                    m >= half,
                    half == len0 * 32,
                    value >= nbits,
                    value <= usize::MAX - 64,
                    newsize == m / 64 + 1,
            ;
            assert(newsize == grow_len(len0, value as nat));
            while self.bitv.storage.len() < newsize
                invariant
                    self.bitv@ == zero_extend(s0, self.bitv@.len()),
                    len0 <= self.bitv@.len() <= newsize,
                    s0 == old(self).bitv@,
                    self.size == old(self).size,
                decreases newsize - self.bitv@.len(),
            {
                self.bitv.storage.push(0);
                assert(self.bitv@ =~= zero_extend(s0, self.bitv@.len()));
            }
        } else {
            assert(self.bitv@ =~= zero_extend(s0, len0));
            proof { lemma_in_range(value as nat, len0); }
        }
        let ghost ext = self.bitv@;
        proof {
            lemma_total_pop_zero_extend(s0, ext.len());
            lemma_in_range(value as nat, ext.len());
            assert(ext.len() * 64 <= usize::MAX) by (nonlinear_arith)
                requires ext.len() == len0 || ext.len() == grow_len(len0, value as nat),
                    len0 * 64 <= usize::MAX, value <= usize::MAX - 64;
        }
        self.bitv.set(value, true);
        proof {
            let k = (value / 64) as int;
            let j = (value % 64) as u64;
            assert(!seq_has(ext, value as nat));
            lemma_popcount_with_bit(ext[k], j, true);
            lemma_total_pop_update(ext, k, with_bit(ext[k], j, true));
            lemma_total_pop_bound(self.bitv@);
            assert(self.bitv@.len() * 64 <= usize::MAX);
        }
        self.size = self.size + 1;
        proof {
            assert(self@ =~= old(self)@.insert(value));
        }
        true
    }

    /// Removes `value`; returns whether it was present. Trailing zero words
    /// are then dropped, down to a single word.
    pub fn remove(&mut self, value: &usize) -> (r: bool)
        requires
            old(self).wf(),
        ensures
            final(self).wf(),
            r == old(self)@.contains(*value),
            final(self)@ == old(self)@.remove(*value),
            final(self).words() == if old(self)@.contains(*value) {
                trim_zeros(seq_with_bit(old(self).words(), *value as nat, false))
            } else {
                old(self).words()
            },
    {
        if !self.contains(value) {
            return false;
        }
        let ghost s0 = self.bitv@;
        proof {
            let k = (*value / 64) as int;
            let j = (*value % 64) as u64;
            lemma_popcount_with_bit(s0[k], j, false);
            lemma_total_pop_update(s0, k, with_bit(s0[k], j, false));
        }
        self.size = self.size - 1;
        self.bitv.set(*value, false);
        let ghost cleared = self.bitv@;
        let mut i = self.bitv.storage.len();
        assert(cleared.subrange(0, i as int) =~= cleared);
        while i > 1 && self.bitv.storage[i - 1] == 0
            invariant
                1 <= i <= cleared.len(),
                self.bitv@ == cleared,
                trim_zeros(cleared) == trim_zeros(cleared.subrange(0, i as int)),
            decreases i,
        {
            assert(cleared.subrange(0, i as int).drop_last() =~= cleared.subrange(0, i - 1));
            i = i - 1;
        }
        self.bitv.storage.truncate(i);
        proof {
            assert(self.bitv@ =~= cleared.subrange(0, i as int));
            assert(trim_zeros(self.bitv@) == self.bitv@);
            lemma_trim_zeros(cleared);
            assert(self@ =~= old(self)@.remove(*value));
        }
        true
    }

    /// Grows `self` with zero words to the word count of `other` if it has
    /// fewer, then replaces each word that `other` also has with `op` applied
    /// to the two words, keeping the size exact.
    pub fn other_op(&mut self, other: &BitvSet, op: Op)
        requires
            old(self).wf(),
            other.wf(),
        ensures
            final(self).wf(),
            final(self).words().len() == if old(self).words().len() >= other.words().len() {
                old(self).words().len()
            } else {
                other.words().len()
            },
            forall|k: int|
                0 <= k < final(self).words().len() ==> #[trigger] final(self).words()[k] == if k
                    < other.words().len() {
                    apply_spec(
                        op,
                        if k < old(self).words().len() { old(self).words()[k] } else { 0u64 },
                        other.words()[k],
                    )
                } else {
                    old(self).words()[k]
                },
            forall|x: usize|
                #[trigger] final(self)@.contains(x) == if (x as nat) < other.capacity_spec() {
                    apply_bit(op, old(self)@.contains(x), other@.contains(x))
                } else {
                    old(self)@.contains(x)
                },
    {
        let ghost s0 = self.bitv@;
        let olen = other.bitv.storage.len();
        while self.bitv.storage.len() < olen
            invariant
                self.bitv@ == zero_extend(s0, self.bitv@.len()),
                s0.len() <= self.bitv@.len() <= olen || self.bitv@.len() == s0.len(),
                s0 == old(self).bitv@,
                self.size == old(self).size,
                olen == other.bitv@.len(),
            decreases olen - self.bitv@.len(),
        {
            self.bitv.storage.push(0);
            assert(self.bitv@ =~= zero_extend(s0, self.bitv@.len()));
        }
        let ghost g = self.bitv@;
        let n = self.bitv.storage.len();
        proof {
            assert(g =~= zero_extend(s0, g.len()));
            lemma_total_pop_zero_extend(s0, g.len());
            assert(n * 64 <= usize::MAX) by (nonlinear_arith)
                requires n == s0.len() || n == olen, s0.len() * 64 <= usize::MAX,
                    olen * 64 <= usize::MAX;
        }
        let mut i: usize = 0;
        while i < olen
            invariant
                self.bitv@.len() == n,
                n == g.len(),
                olen <= n,
                n * 64 <= usize::MAX,
                olen == other.bitv@.len(),
                i <= olen,
                self.size == total_pop(self.bitv@),
                forall|k: int|
                    0 <= k < i ==> #[trigger] self.bitv@[k] == apply_spec(op, g[k], other.bitv@[k]),
                forall|k: int| i <= k < n ==> #[trigger] self.bitv@[k] == g[k],
            decreases olen - i,
        {
            let old_w = self.bitv.storage[i];
            let new_w = op.apply(old_w, other.bitv.storage[i]);
            let ghost before = self.bitv@;
            proof {
                lemma_total_pop_update(before, i as int, new_w);
                lemma_total_pop_update(before, i as int, 0);
                lemma_total_pop_bound(before.update(i as int, new_w));
                lemma_bits_below_zero(64);
            }
            self.bitv.storage[i] = new_w;
            let pop_old = count_ones(old_w);
            let pop_new = count_ones(new_w);
            self.size = self.size - pop_old as usize + pop_new as usize;
            i = i + 1;
        }
        proof {
            assert forall|x: usize|
                #[trigger] self@.contains(x) == if (x as nat) < other.capacity_spec() {
                    apply_bit(op, old(self)@.contains(x), other@.contains(x))
                } else {
                    old(self)@.contains(x)
                } by {
                let p = x as nat;
                let k = p / 64;
                let j = (p % 64) as u64;
                lemma_in_range(p, n as nat);
                lemma_in_range(p, olen as nat);
                lemma_in_range(p, s0.len());
                assert(seq_has(g, p) == seq_has(s0, p));
                if k < olen {
                    lemma_apply_bit(op, g[k as int], other.bitv@[k as int], j);
                }
            }
        }
    }

    /// Adds every element of `other`.
    pub fn union_with(&mut self, other: &BitvSet)
        requires
            old(self).wf(),
            other.wf(),
        ensures
            final(self).wf(),
            final(self)@ == old(self)@.union(other@),
            final(self).capacity_spec() == if old(self).capacity_spec() >= other.capacity_spec() {
                old(self).capacity_spec()
            } else {
                other.capacity_spec()
            },
    {
        self.other_op(other, Op::Union);
        proof {
            other.lemma_beyond_capacity();
            assert(self@ =~= old(self)@.union(other@));
        }
    }

    /// Keeps the elements that `other` also holds, among those below the
    /// capacity of `other`; elements at or past that capacity stay.
    pub fn intersect_with(&mut self, other: &BitvSet)
        requires
            old(self).wf(),
            other.wf(),
        ensures
            final(self).wf(),
            final(self)@ == old(self)@.filter(
                |x: usize| other@.contains(x) || x as nat >= other.capacity_spec(),
            ),
            final(self).capacity_spec() == if old(self).capacity_spec() >= other.capacity_spec() {
                old(self).capacity_spec()
            } else {
                other.capacity_spec()
            },
    {
        self.other_op(other, Op::Intersect);
        proof {
            assert(self@ =~= old(self)@.filter(
                |x: usize| other@.contains(x) || x as nat >= other.capacity_spec(),
            ));
        }
    }

    /// Removes every element of `other`.
    pub fn difference_with(&mut self, other: &BitvSet)
        requires
            old(self).wf(),
            other.wf(),
        ensures
            final(self).wf(),
            final(self)@ == old(self)@.difference(other@),
            final(self).capacity_spec() == if old(self).capacity_spec() >= other.capacity_spec() {
                old(self).capacity_spec()
            } else {
                other.capacity_spec()
            },
    {
        self.other_op(other, Op::Difference);
        proof {
            other.lemma_beyond_capacity();
            assert(self@ =~= old(self)@.difference(other@));
        }
    }

    /// Keeps the elements that exactly one of the two sets holds.
    pub fn symmetric_difference_with(&mut self, other: &BitvSet)
        requires
            old(self).wf(),
            other.wf(),
        ensures
            final(self).wf(),
            final(self)@ == old(self)@.difference(other@).union(other@.difference(old(self)@)),
            final(self).capacity_spec() == if old(self).capacity_spec() >= other.capacity_spec() {
                old(self).capacity_spec()
            } else {
                other.capacity_spec()
            },
    {
        self.other_op(other, Op::SymmetricDifference);
        proof {
            other.lemma_beyond_capacity();
            assert(self@ =~= old(self)@.difference(other@).union(other@.difference(old(self)@)));
        }
    }

    /// No element lies at or past the capacity.
    pub proof fn lemma_beyond_capacity(&self)
        ensures
            forall|x: usize| #[trigger] self@.contains(x) ==> (x as nat) < self.capacity_spec(),
    {
    }

    /// Calls `f` on each element of `self` that `other` lacks, in
    /// ascending order, and stops at the first call that returns `false`.
    /// Returns whether every call returned `true`.
    pub fn difference<F: Fn(usize) -> bool>(&self, other: &BitvSet, f: &F) -> (r: bool)
        requires
            self.wf(),
            other.wf(),
            forall|x: usize| f.requires((x,)),
        ensures
            r ==> forall|x: usize|
                #[trigger] self@.difference(other@).contains(x) ==> f.ensures((x,), true),
            !r ==> exists|x: usize|
                #[trigger] self@.difference(other@).contains(x) && f.ensures((x,), false) && forall|
                    y: usize,
                | y < x && #[trigger] self@.difference(other@).contains(y) ==> f.ensures((y,), true),
    {
        let slen = self.bitv.storage.len();
        let olen = other.bitv.storage.len();
        let mut k: usize = 0;
        while k < slen
            invariant
                slen == self.bitv@.len(),
                olen == other.bitv@.len(),
                self.wf(),
                other.wf(),
                k <= slen,
                forall|x: usize| f.requires((x,)),
                forall|y: usize|
                    (y as nat) < k * 64 && #[trigger] self@.difference(other@).contains(y) ==> f.ensures(
                        (y,),
                        true,
                    ),
            decreases slen - k,
        {
            let mine = self.bitv.storage[k];
            let theirs = if k < olen { other.bitv.storage[k] } else { 0u64 };
            let w = mine & !theirs;
            proof {
                assert(k * 64 + 64 <= slen * 64) by (nonlinear_arith) requires k < slen;
            }
            let base = k * 64;
            let ok = iterate_bits(base, w, f);
            proof {
                assert forall|j: usize| j < 64 implies #[trigger] word_has(w, j as u64)
                    == self@.difference(other@).contains((base + j) as usize) by {
                    let p = (base + j) as nat;
                    lemma_index(p, k as nat, j as nat);
                    lemma_in_range(p, slen as nat);
                    lemma_in_range(p, olen as nat);
                    lemma_word_ops(mine, theirs, j as u64);
                    lemma_word_ops(0, 0, j as u64);
                }
            }
            if !ok {
                proof {
                    let j = choose|j: usize|
                        j < 64 && #[trigger] word_has(w, j as u64) && f.ensures(((base + j) as usize,), false)
                            && forall|t: usize|
                            t < j && #[trigger] word_has(w, t as u64) ==> f.ensures(((base + t) as usize,), true);
                    let x = (base + j) as usize;
                    assert(self@.difference(other@).contains(x));
                    assert forall|y: usize|
                        y < x && #[trigger] self@.difference(other@).contains(y) implies f.ensures(
                            (y,),
                            true,
                        ) by {
                        if (y as nat) >= k * 64 {
                            let t = (y - base) as usize;
                            assert(word_has(w, t as u64));
                        }
                    }
                }
                return false;
            }
            proof {
                assert forall|y: usize|
                    (y as nat) < (k + 1) * 64 && #[trigger] self@.difference(other@).contains(y)
                        implies f.ensures((y,), true) by {
                    if (y as nat) >= k * 64 {
                        let t = (y - base) as usize;
                        assert(word_has(w, t as u64));
                    }
                }
            }
            k = k + 1;
        }
        proof {
            self.lemma_beyond_capacity();
        }
        true
    }

    /// For each word index that both sets have: the first integer of the
    /// word, the word of `self` and the word of `other`.
    pub fn common_iter(&self, other: &BitvSet) -> (r: Vec<(usize, u64, u64)>)
        requires
            self.wf(),
        ensures
            r@.len() == if self.words().len() <= other.words().len() {
                self.words().len()
            } else {
                other.words().len()
            },
            forall|i: int|
                0 <= i < r@.len() ==> #[trigger] r@[i] == ((i * 64) as usize, self.words()[i], other.words()[i]),
    {
        let slen = self.bitv.storage.len();
        let olen = other.bitv.storage.len();
        let n = if slen <= olen { slen } else { olen };
        let mut r: Vec<(usize, u64, u64)> = Vec::new();
        let mut i: usize = 0;
        while i < n
            invariant
                self.wf(),
                slen == self.words().len(),
                olen == other.words().len(),
                n <= slen,
                n <= olen,
                i <= n,
                r@.len() == i,
                forall|k: int|
                    0 <= k < i ==> #[trigger] r@[k] == ((k * 64) as usize, self.words()[k], other.words()[k]),
            decreases n - i,
        {
            proof {
                assert(i * 64 < slen * 64) by (nonlinear_arith) requires i < slen;
            }
            r.push((i * 64, self.bitv.storage[i], other.bitv.storage[i]));
            i = i + 1;
        }
        r
    }

    /// For each word index that only one of the two sets has: whether that
    /// set is `self`, the first integer of the word, and the word.
    pub fn outlier_iter(&self, other: &BitvSet) -> (r: Vec<(bool, usize, u64)>)
        requires
            self.wf(),
            other.wf(),
        ensures
            r@.len() == if self.words().len() >= other.words().len() {
                self.words().len() - other.words().len()
            } else {
                other.words().len() - self.words().len()
            },
            forall|t: int|
                0 <= t < r@.len() ==> #[trigger] r@[t] == if self.words().len() > other.words().len() {
                    (true, ((other.words().len() + t) * 64) as usize, self.words()[other.words().len() + t])
                } else {
                    (false, ((self.words().len() + t) * 64) as usize, other.words()[self.words().len() + t])
                },
    {
        let slen = self.bitv.storage.len();
        let olen = other.bitv.storage.len();
        let mine = slen > olen;
        let (lo, hi) = if mine { (olen, slen) } else { (slen, olen) };
        let mut r: Vec<(bool, usize, u64)> = Vec::new();
        let mut i: usize = lo;
        while i < hi
            invariant
                self.wf(),
                other.wf(),
                slen == self.words().len(),
                olen == other.words().len(),
                mine == (slen > olen),
                lo == (if mine { olen } else { slen }),
                hi == (if mine { slen } else { olen }),
                lo <= i <= hi,
                r@.len() == i - lo,
                forall|t: int|
                    0 <= t < r@.len() ==> #[trigger] r@[t] == if mine {
                        (true, ((olen + t) * 64) as usize, self.words()[olen + t])
                    } else {
                        (false, ((slen + t) * 64) as usize, other.words()[slen + t])
                    },
            decreases hi - i,
        {
            proof {
                assert(i * 64 < hi * 64) by (nonlinear_arith) requires i < hi;
            }
            let w = if mine { self.bitv.storage[i] } else { other.bitv.storage[i] };
            r.push((mine, i * 64, w));
            i = i + 1;
        }
        r
    }

    /// An iterator over the elements in ascending order.
    pub fn iter(&self) -> (r: BitvSetIterator<'_>)
        requires
            self.wf(),
        ensures
            r.wf(),
            r.elements() == self@,
            r.position() == 0,
            r.capacity_spec() == self.capacity_spec(),
    {
        BitvSetIterator { set: self, next_idx: 0 }
    }

    /// Number of elements.
    pub fn len(&self) -> (r: usize)
        requires
            self.wf(),
        ensures
            r == self.size(),
            r == self@.len(),
    {
        proof {
            self.lemma_size_is_recount();
        }
        self.size
    }

    /// Removes every element, keeping the number of words.
    pub fn clear(&mut self)
        requires
            old(self).wf(),
        ensures
            final(self).wf(),
            final(self)@ == Set::<usize>::empty(),
            final(self).words() == Seq::new(old(self).words().len(), |_i: int| 0u64),
    {
        let len = self.bitv.storage.len();
        let mut i: usize = 0;
        while i < len
            invariant
                self.bitv@.len() == len,
                i <= len,
                forall|k: int| 0 <= k < i ==> #[trigger] self.bitv@[k] == 0,
            decreases len - i,
        {
            self.bitv.storage[i] = 0;
            i = i + 1;
        }
        self.size = 0;
        proof {
            let z = Seq::new(len as nat, |_i: int| 0u64);
            assert(self.bitv@ =~= z);
            assert(z =~= zero_extend(Seq::<u64>::empty(), len as nat));
            lemma_total_pop_zero_extend(Seq::<u64>::empty(), len as nat);
            assert(total_pop(Seq::<u64>::empty()) == 0);
            assert(self@ =~= Set::<usize>::empty());
        }
    }
}

/// A walk over the elements of a set in ascending order; each call of
/// `iter` starts a fresh one.
pub struct BitvSetIterator<'a> {
    set: &'a BitvSet,
    next_idx: usize,
}

impl<'a> BitvSetIterator<'a> {
    /// The elements of the set walked over.
    pub closed spec fn elements(&self) -> Set<usize> {
        self.set@
    }

    /// The capacity of the set walked over.
    pub closed spec fn capacity_spec(&self) -> nat {
        self.set.capacity_spec()
    }

    /// The next integer to look at.
    pub closed spec fn position(&self) -> nat {
        self.next_idx as nat
    }

    /// The walked set is well formed.
    pub closed spec fn wf(&self) -> bool {
        self.set.wf()
    }

    /// The least element at or past the position, which then moves past it;
    /// `None` when there is none.
    pub fn next(&mut self) -> (r: Option<usize>)
        requires
            old(self).wf(),
        ensures
            final(self).wf(),
            final(self).elements() == old(self).elements(),
            final(self).capacity_spec() == old(self).capacity_spec(),
            match r {
                Some(x) => {
                    &&& old(self).position() <= x
                    &&& old(self).elements().contains(x)
                    &&& forall|y: usize|
                        old(self).position() <= y < x ==> !#[trigger] old(self).elements().contains(y)
                    &&& final(self).position() == x + 1
                },
                None => {
                    &&& forall|y: usize|
                        old(self).position() <= y ==> !#[trigger] old(self).elements().contains(y)
                    &&& final(self).position() == if old(self).position() >= old(
                        self,
                    ).capacity_spec() {
                        old(self).position()
                    } else {
                        old(self).capacity_spec()
                    }
                },
            },
    {
        let cap = self.set.capacity();
        while self.next_idx < cap
            invariant
                self.wf(),
                self.set == old(self).set,
                cap == self.set.capacity_spec(),
                old(self).next_idx <= self.next_idx,
                old(self).next_idx >= cap ==> self.next_idx == old(self).next_idx,
                old(self).next_idx < cap ==> self.next_idx <= cap,
                forall|y: usize|
                    old(self).next_idx <= y < self.next_idx ==> !#[trigger] self.set@.contains(y),
            decreases cap - self.next_idx,
        {
            let idx = self.next_idx;
            self.next_idx = self.next_idx + 1;
            if self.set.contains(&idx) {
                return Some(idx);
            }
        }
        proof {
            self.set.lemma_beyond_capacity();
        }
        None
    }
}

proof fn lemma_set_clear_word(w: u64, j: u64)
    by (bit_vector)
    requires
        j < 64,
        !word_has(w, j),
    ensures
        with_bit(with_bit(w, j, true), j, false) == w,
{
}

proof fn lemma_trim_zero_extend(s: Seq<u64>, n: nat)
    requires
        1 <= s.len() <= n,
    ensures
        trim_zeros(zero_extend(s, n)) == trim_zeros(s),
    decreases n,
{
    let z = zero_extend(s, n);
    if n > s.len() {
        assert(z.drop_last() =~= zero_extend(s, (n - 1) as nat));
        lemma_trim_zero_extend(s, (n - 1) as nat);
    } else {
        assert(z =~= s);
    }
}

proof fn lemma_shift_bit(w: u64, k: u64)
    by (bit_vector)
    requires
        k < 64,
        w >> k != 0,
    ensures
        (w >> k) & 1u64 == 0 ==> k < 63 && w >> ((k + 1) as u64) != 0,
{
}

/// A word other than zero has a set bit at or past `k` when its bits from
/// `k` on are not all clear.
proof fn lemma_has_set_bit(w: u64, k: u64) -> (j: u64)
    requires
        k < 64,
        w >> k != 0,
    ensures
        k <= j < 64,
        word_has(w, j),
    decreases 64 - k,
{
    lemma_shift_bit(w, k);
    if (w >> k) & 1u64 == 1u64 {
        k
    } else {
        assert((w >> k) & 1u64 == 0) by (bit_vector)
            requires (w >> k) & 1u64 != 1u64;
        lemma_has_set_bit(w, (k + 1) as u64)
    }
}

proof fn lemma_trim_minimal(s: Seq<u64>)
    requires
        s.len() >= 1,
    ensures
        trim_zeros(s).len() == 1 || trim_zeros(s).last() != 0,
    decreases s.len(),
{
    if s.len() > 1 && s.last() == 0 {
        lemma_trim_minimal(s.drop_last());
    }
}

/// Inserting a value that was absent and then removing it leaves the words
/// of the set as they were, with trailing zero words dropped: the fewest
/// words that hold the elements present before, and at least one. Past the
/// first word, the last word holds one of those elements.
pub proof fn lemma_insert_remove_restores(a: BitvSet, v: usize, b: BitvSet, c: BitvSet)
    requires
        a.wf(),
        !a@.contains(v),
        v <= usize::MAX - 64,
        b.words() == seq_with_bit(
            zero_extend(a.words(), grow_len(a.words().len(), v as nat)),
            v as nat,
            true,
        ),
        c.words() == trim_zeros(seq_with_bit(b.words(), v as nat, false)),
    ensures
        c.words() == trim_zeros(a.words()),
        c@ == a@,
        c.capacity_spec() > 64 ==> exists|x: usize|
            #[trigger] a@.contains(x) && x as nat >= c.capacity_spec() - 64,
        c.words().len() >= 1,
{
    let s = a.words();
    let n = grow_len(s.len(), v as nat);
    let z = zero_extend(s, n);
    assert(n >= s.len() && (v as nat) / 64 < n) by (nonlinear_arith)
        requires
            n == grow_len(s.len(), v as nat),
            s.len() >= 1,
            v as nat >= s.len() * 64 ==> n == (if v as nat >= s.len() * 32 { v as nat } else { s.len() * 32 }) / 64 + 1,
            v as nat >= s.len() * 64 || n == s.len(),
    ;
    lemma_in_range(v as nat, s.len());
    lemma_total_pop_zero_extend(s, n);
    let k = ((v as nat) / 64) as int;
    let j = ((v as nat) % 64) as u64;
    a.lemma_view();
    lemma_in_range(v as nat, n);
    assert(!seq_has(z, v as nat));
    assert(!word_has(z[k], j));
    lemma_set_clear_word(z[k], j);
    assert(seq_with_bit(b.words(), v as nat, false) =~= z);
    lemma_trim_zero_extend(s, n);
    lemma_trim_zeros(s);
    assert(c@ =~= a@);
    lemma_trim_minimal(s);
    let t = c.words();
    if c.capacity_spec() > 64 {
        let m = t.len();
        assert(m > 1);
        assert(t.last() != 0);
        let w = t.last();
        assert(w >> 0u64 == w) by (bit_vector);
        let j = lemma_has_set_bit(w, 0);
        let x = (m - 1) * 64 + j;
        assert(x < m * 64 && x + 64 >= m * 64) by (nonlinear_arith)
            requires x == (m - 1) * 64 + j, j < 64, m >= 1;
        assert(x <= usize::MAX);
        lemma_index(x as nat, (m - 1) as nat, j as nat);
        assert(seq_has(t, x as nat));
        c.lemma_view();
        assert(a@.contains(x as usize));
    }
}

/// Union and then intersection with the same set `b` leaves the elements of
/// `b`, together with those of the first set at or past the capacity of `b`;
/// exactly the elements of `b` when the first set was no larger.
pub proof fn lemma_union_then_intersect(a: BitvSet, b: BitvSet, u: BitvSet, i: BitvSet)
    requires
        a.wf(),
        b.wf(),
        u@ == a@.union(b@),
        i@ == u@.filter(|x: usize| b@.contains(x) || x as nat >= b.capacity_spec()),
    ensures
        i@ == b@.union(a@.filter(|x: usize| x as nat >= b.capacity_spec())),
        a.capacity_spec() <= b.capacity_spec() ==> i@ == b@,
{
    b.lemma_beyond_capacity();
    a.lemma_beyond_capacity();
    assert(i@ =~= b@.union(a@.filter(|x: usize| x as nat >= b.capacity_spec())));
    if a.capacity_spec() <= b.capacity_spec() {
        assert(i@ =~= b@);
    }
}

/// Difference with an equal set, and symmetric difference with an equal
/// set, leave nothing.
pub proof fn lemma_self_difference_empty(a: BitvSet, d: BitvSet, x: BitvSet)
    requires
        d@ == a@.difference(a@),
        x@ == a@.difference(a@).union(a@.difference(a@)),
    ensures
        d@ == Set::<usize>::empty(),
        x@ == Set::<usize>::empty(),
{
    assert(d@ =~= Set::<usize>::empty());
    assert(x@ =~= Set::<usize>::empty());
}

/// Union in place is commutative: `a` with `b` and `b` with `a` give the
/// same elements.
pub proof fn lemma_union_commutes(a: BitvSet, b: BitvSet, ab: BitvSet, ba: BitvSet)
    requires
        ab@ == a@.union(b@),
        ba@ == b@.union(a@),
    ensures
        ab@ == ba@,
{
    assert(ab@ =~= ba@);
}

/// Union in place is associative.
pub proof fn lemma_union_associates(
    a: BitvSet,
    b: BitvSet,
    c: BitvSet,
    ab: BitvSet,
    ab_c: BitvSet,
    bc: BitvSet,
    a_bc: BitvSet,
)
    requires
        ab@ == a@.union(b@),
        ab_c@ == ab@.union(c@),
        bc@ == b@.union(c@),
        a_bc@ == a@.union(bc@),
    ensures
        ab_c@ == a_bc@,
{
    assert(ab_c@ =~= a_bc@);
}

/// Intersection in place is commutative on sets of equal capacity.
pub proof fn lemma_intersect_commutes(a: BitvSet, b: BitvSet, ab: BitvSet, ba: BitvSet)
    requires
        a.wf(),
        b.wf(),
        a.capacity_spec() == b.capacity_spec(),
        ab@ == a@.filter(|x: usize| b@.contains(x) || x as nat >= b.capacity_spec()),
        ba@ == b@.filter(|x: usize| a@.contains(x) || x as nat >= a.capacity_spec()),
    ensures
        ab@ == ba@,
        ab@ == a@.intersect(b@),
{
    a.lemma_beyond_capacity();
    b.lemma_beyond_capacity();
    assert(ab@ =~= ba@);
    assert(ab@ =~= a@.intersect(b@));
}

/// Intersection in place is associative on sets of equal capacity.
pub proof fn lemma_intersect_associates(
    a: BitvSet,
    b: BitvSet,
    c: BitvSet,
    ab: BitvSet,
    ab_c: BitvSet,
    bc: BitvSet,
    a_bc: BitvSet,
)
    requires
        a.wf(),
        b.wf(),
        c.wf(),
        a.capacity_spec() == b.capacity_spec(),
        b.capacity_spec() == c.capacity_spec(),
        ab@ == a@.filter(|x: usize| b@.contains(x) || x as nat >= b.capacity_spec()),
        ab_c@ == ab@.filter(|x: usize| c@.contains(x) || x as nat >= c.capacity_spec()),
        bc@ == b@.filter(|x: usize| c@.contains(x) || x as nat >= c.capacity_spec()),
        a_bc@ == a@.filter(|x: usize| bc@.contains(x) || x as nat >= bc.capacity_spec()),
        bc.capacity_spec() == b.capacity_spec(),
    ensures
        ab_c@ == a_bc@,
        ab_c@ == a@.intersect(b@).intersect(c@),
{
    a.lemma_beyond_capacity();
    b.lemma_beyond_capacity();
    c.lemma_beyond_capacity();
    assert(ab_c@ =~= a@.intersect(b@).intersect(c@));
    assert(a_bc@ =~= a@.intersect(b@).intersect(c@));
}

} // verus!
