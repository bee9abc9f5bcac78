//! The mathematical reading of a limb sequence.
//!
//! A magnitude is a little-endian sequence of limbs in a fixed radix;
//! `seq_value` gives the unsigned integer such a sequence denotes, and the
//! lemmas here let loops over the sequence account for partial sums.
use vstd::arithmetic::mul::lemma_mul_inequality;
use vstd::arithmetic::power::lemma_pow0;
use vstd::arithmetic::power::lemma_pow1;
use vstd::arithmetic::power::lemma_pow_adds;
use vstd::arithmetic::power::lemma_pow_positive;
use vstd::arithmetic::power::pow;
use vstd::prelude::*;

verus! {

/// The fixed internal radix: each limb is a digit in this base.
///
/// The radix is exactly one more than the largest value a limb can hold, so
/// carry propagation in the wider intermediate type is exact: a product
/// `limb * small + carry` with `limb < LIMB_RADIX` and `carry < small` stays
/// strictly below `LIMB_RADIX * small`, which fits the intermediate width
/// whenever `small` fits the machine word.
pub const LIMB_RADIX: u128 = 0x1_0000_0000_0000_0000;

/// The unsigned integer a little-endian limb sequence denotes:
/// the sum of `limbs[i] * LIMB_RADIX^i`.
pub open spec fn seq_value(limbs: Seq<u64>) -> nat
    decreases limbs.len(),
{
    if limbs.len() == 0 {
        0
    } else {
        limbs[0] as nat + (LIMB_RADIX as nat) * seq_value(limbs.drop_first())
    }
}

/// Extending a prefix by one limb adds that limb at its positional weight.
pub proof fn lemma_seq_value_prefix(s: Seq<u64>, i: int)
    requires
        0 <= i < s.len(),
    ensures
        seq_value(s.take(i + 1)) == seq_value(s.take(i)) + s[i] * pow(LIMB_RADIX as int, i as nat),
    decreases i,
{
    let r = LIMB_RADIX as int;
    if i == 0 {
        assert(s.take(0) =~= Seq::<u64>::empty());
        assert(s.take(1).drop_first() =~= Seq::<u64>::empty());
        assert(seq_value(Seq::<u64>::empty()) == 0);
        assert(seq_value(s.take(1)) == s[0]);
        lemma_pow0(r);
    } else {
        let d = s.drop_first();
        lemma_seq_value_prefix(d, i - 1);
        assert(s.take(i + 1).drop_first() =~= d.take(i));
        assert(s.take(i).drop_first() =~= d.take(i - 1));
        assert(seq_value(s.take(i + 1)) == s[0] + (LIMB_RADIX as nat) * seq_value(d.take(i)));
        assert(seq_value(s.take(i)) == s[0] + (LIMB_RADIX as nat) * seq_value(d.take(i - 1)));
        lemma_pow1(r);
        lemma_pow_adds(r, 1, (i - 1) as nat);
        assert(pow(r, i as nat) == r * pow(r, (i - 1) as nat));
        assert(d[i - 1] == s[i]);
        let v = seq_value(d.take(i - 1)) as int;
        let w = pow(r, (i - 1) as nat);
        assert(r * (v + s[i] * w) == r * v + s[i] * (r * w)) by (nonlinear_arith);
    }
}

/// A limb sequence splits at any point into a low prefix and a high suffix
/// weighted by the radix power at the split.
pub proof fn lemma_seq_value_split(s: Seq<u64>, i: int)
    requires
        0 <= i <= s.len(),
    ensures
        seq_value(s) == seq_value(s.take(i)) + pow(LIMB_RADIX as int, i as nat) * seq_value(
            s.skip(i),
        ),
    decreases i,
{
    let r = LIMB_RADIX as int;
    if i == 0 {
        assert(s.take(0) =~= Seq::<u64>::empty());
        assert(s.skip(0) =~= s);
        assert(seq_value(Seq::<u64>::empty()) == 0);
        lemma_pow0(r);
    } else {
        let d = s.drop_first();
        lemma_seq_value_split(d, i - 1);
        assert(s.take(i).drop_first() =~= d.take(i - 1));
        assert(s.skip(i) =~= d.skip(i - 1));
        assert(seq_value(s) == s[0] + (LIMB_RADIX as nat) * seq_value(d));
        assert(seq_value(s.take(i)) == s[0] + (LIMB_RADIX as nat) * seq_value(d.take(i - 1)));
        lemma_pow1(r);
        lemma_pow_adds(r, 1, (i - 1) as nat);
        assert(pow(r, i as nat) == r * pow(r, (i - 1) as nat));
        let v = seq_value(d.take(i - 1)) as int;
        let w = pow(r, (i - 1) as nat);
        let h = seq_value(d.skip(i - 1)) as int;
        assert(r * (v + w * h) == r * v + (r * w) * h) by (nonlinear_arith);
    }
}

/// The whole sequence is its last limb at top weight over the rest.
pub proof fn lemma_seq_value_last(s: Seq<u64>)
    requires
        s.len() >= 1,
    ensures
        seq_value(s) == seq_value(s.drop_last()) + s.last() * pow(
            LIMB_RADIX as int,
            (s.len() - 1) as nat,
        ),
{
    let n = s.len() as int;
    lemma_seq_value_prefix(s, n - 1);
    assert(s.take(n) =~= s);
    assert(s.take(n - 1) =~= s.drop_last());
}

/// A sequence whose top limb is non-zero denotes a non-zero value.
pub proof fn lemma_seq_value_nonzero_last(s: Seq<u64>)
    requires
        s.len() >= 1,
        s.last() != 0,
    ensures
        seq_value(s) >= pow(LIMB_RADIX as int, (s.len() - 1) as nat),
{
    let r = LIMB_RADIX as int;
    let w = pow(r, (s.len() - 1) as nat);
    lemma_seq_value_last(s);
    lemma_pow_positive(r, (s.len() - 1) as nat);
    lemma_mul_inequality(1, s.last() as int, w);
}

/// A single-limb sequence denotes that limb.
pub proof fn lemma_seq_value_single(s: Seq<u64>)
    requires
        s.len() == 1,
    ensures
        seq_value(s) == s[0],
{
    assert(s.drop_first() =~= Seq::<u64>::empty());
    assert(seq_value(Seq::<u64>::empty()) == 0);
}

} // verus!
