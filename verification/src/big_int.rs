//! Arbitrary-precision unsigned integers for base conversion.
//!
//! A `BigInt` owns a canonical little-endian sequence of limbs in base
//! [`LIMB_RADIX`](crate::limb_seq::LIMB_RADIX) and offers exactly the three
//! primitives the conversion algorithm needs: multiply by a small value, add
//! a small value, and divide by a small value returning the remainder.
use crate::errors::ConvertError;
use crate::limb_seq::lemma_seq_value_last;
use crate::limb_seq::lemma_seq_value_nonzero_last;
use crate::limb_seq::lemma_seq_value_prefix;
use crate::limb_seq::lemma_seq_value_single;
use crate::limb_seq::lemma_seq_value_split;
use crate::limb_seq::seq_value;
use crate::limb_seq::LIMB_RADIX;
use vstd::arithmetic::div_mod::lemma_fundamental_div_mod;
use vstd::arithmetic::div_mod::lemma_fundamental_div_mod_converse;
use vstd::arithmetic::power::lemma_pow0;
use vstd::arithmetic::power::lemma_pow1;
use vstd::arithmetic::power::lemma_pow_adds;
use vstd::arithmetic::power::lemma_pow_positive;
use vstd::arithmetic::power::pow;
use vstd::prelude::*;

verus! {

/// With `p` decomposed by division at `r`, its two parts weighted by `w`
/// and `r * w` recombine to `p * w`.
proof fn lemma_carry_weight(p: int, r: int, w: int)
    requires
        r > 0,
    ensures
        (p % r) * w + (p / r) * (r * w) == p * w,
{
    lemma_fundamental_div_mod(p, r);
    assert((p % r) * w + (p / r) * (r * w) == (r * (p / r) + p % r) * w) by (nonlinear_arith);
}

/// Arbitrary-precision unsigned integer.
///
/// Limbs are stored least-significant first; the canonical form never keeps
/// a most-significant zero limb, except that zero itself is the single limb
/// `0`. Each mutating primitive re-establishes canonical form on return.
#[derive(Clone, Debug, PartialEq, Eq)]
pub struct BigInt {
    limbs: Vec<u64>,
}

impl BigInt {
    /// Canonical form: never empty, and no superfluous top zero limb.
    pub closed spec fn wf(&self) -> bool {
        &&& self.limbs@.len() >= 1
        &&& self.limbs@.len() > 1 ==> self.limbs@.last() != 0
    }

    /// The unsigned integer this magnitude denotes.
    pub closed spec fn value(&self) -> nat {
        seq_value(self.limbs@)
    }

    /// The canonical representation of zero: a single zero limb.
    pub fn zero() -> (r: BigInt)
        ensures
            r.wf(),
            r.value() == 0,
    {
        let mut limbs: Vec<u64> = Vec::new();
        limbs.push(0);
        proof {
            lemma_seq_value_single(limbs@);
        }
        BigInt { limbs }
    }

    /// Whether this magnitude denotes zero.
    pub fn is_zero(&self) -> (r: bool)
        requires
            self.wf(),
        ensures
            r == (self.value() == 0),
    {
        proof {
            if self.limbs@.len() == 1 {
                lemma_seq_value_single(self.limbs@);
            } else {
                lemma_seq_value_nonzero_last(self.limbs@);
                lemma_pow_positive(LIMB_RADIX as int, (self.limbs@.len() - 1) as nat);
            }
        }
        self.limbs.len() == 1 && self.limbs[0] == 0
    }

    /// Restore canonical form by popping top zero limbs down to length one.
    fn normalize(&mut self)
        requires
            old(self).limbs@.len() >= 1,
        ensures
            final(self).wf(),
            final(self).value() == seq_value(old(self).limbs@),
    {
        let ghost orig = self.limbs@;
        while self.limbs.len() > 1 && self.limbs[self.limbs.len() - 1] == 0
            invariant
                self.limbs@.len() >= 1,
                seq_value(self.limbs@) == seq_value(orig),
            decreases self.limbs@.len(),
        {
            let ghost prev = self.limbs@;
            proof {
                lemma_seq_value_last(prev);
                assert(prev.last() == 0);
                assert(prev.last() * pow(LIMB_RADIX as int, (prev.len() - 1) as nat) == 0);
                assert(seq_value(prev.drop_last()) == seq_value(prev));
            }
            self.limbs.pop();
            proof {
                assert(self.limbs@ =~= prev.drop_last());
                assert(seq_value(self.limbs@) == seq_value(prev));
            }
        }
    }

    /// Append the remaining carry as new top limbs until it is consumed.
    fn flush_carry(&mut self, carry: u128)
        requires
            old(self).limbs@.len() >= 1,
        ensures
            final(self).limbs@.len() >= 1,
            seq_value(final(self).limbs@) == seq_value(old(self).limbs@) + carry * pow(
                LIMB_RADIX as int,
                old(self).limbs@.len() as nat,
            ),
    {
        let mut rest: u128 = carry;
        while rest > 0
            invariant
                self.limbs@.len() >= old(self).limbs@.len() >= 1,
                seq_value(self.limbs@) + rest * pow(LIMB_RADIX as int, self.limbs@.len() as nat)
                    == seq_value(old(self).limbs@) + carry * pow(
                    LIMB_RADIX as int,
                    old(self).limbs@.len() as nat,
                ),
            decreases rest,
        {
            let ghost prev = self.limbs@;
            let ghost c: int = rest as int;
            let ghost r: int = LIMB_RADIX as int;
            let digit = (rest % LIMB_RADIX) as u64;
            self.limbs.push(digit);
            rest = rest / LIMB_RADIX;
            proof {
                let w = pow(r, prev.len() as nat);
                lemma_pow_positive(r, prev.len() as nat);
                assert(self.limbs@.drop_last() =~= prev);
                lemma_seq_value_last(self.limbs@);
                lemma_pow1(r);
                lemma_pow_adds(r, prev.len() as nat, 1);
                assert(pow(r, self.limbs@.len() as nat) == r * w) by {
                    assert(pow(r, 1) == r);
                    assert(pow(r, (prev.len() + 1) as nat) == w * r);
                }
                lemma_carry_weight(c, r, w);
                assert(c / r < c) by (nonlinear_arith)
                    requires
                        c > 0,
                        r >= 2,
                ;
            }
        }
        proof {
            assert(rest * pow(LIMB_RADIX as int, self.limbs@.len() as nat) == 0);
        }
    }

    /// Multiply the magnitude in place by `small`.
    pub fn mul_small(&mut self, small: usize)
        requires
            old(self).wf(),
        ensures
            final(self).wf(),
            final(self).value() == old(self).value() * small,
    {
        if small == 0 {
            self.limbs.clear();
            self.limbs.push(0);
            proof {
                lemma_seq_value_single(self.limbs@);
            }
            return ;
        }
        if small == 1 {
            return ;
        }
        let ghost orig = self.limbs@;
        let k: u128 = small as u128;
        let n = self.limbs.len();
        let mut carry: u128 = 0;
        let mut i: usize = 0;
        proof {
            assert(orig.take(0) =~= Seq::<u64>::empty());
            assert(seq_value(Seq::<u64>::empty()) == 0);
            lemma_pow0(LIMB_RADIX as int);
        }
        while i < n
            invariant
                self.limbs@.len() == n == orig.len(),
                i <= n,
                k == small as u128,
                2 <= small,
                carry < k,
                forall|j: int| i <= j < n ==> self.limbs@[j] == orig[j],
                seq_value(self.limbs@.take(i as int)) + carry * pow(LIMB_RADIX as int, i as nat)
                    == (small as nat) * seq_value(orig.take(i as int)),
            decreases n - i,
        {
            let ghost prev = self.limbs@;
            let ghost c: int = carry as int;
            let ghost r: int = LIMB_RADIX as int;
            let limb = self.limbs[i];
            assert((limb as u128) * k + carry < LIMB_RADIX * k) by (nonlinear_arith)
                requires
                    limb < LIMB_RADIX,
                    carry < k,
            ;
            assert(LIMB_RADIX * k <= u128::MAX) by (nonlinear_arith)
                requires
                    k <= u64::MAX,
            ;
            let prod: u128 = (limb as u128) * k + carry;
            self.limbs[i] = (prod % LIMB_RADIX) as u64;
            assert(prod / LIMB_RADIX < k) by (nonlinear_arith)
                requires
                    prod < LIMB_RADIX * k,
                    k >= 1,
            ;
            carry = prod / LIMB_RADIX;
            proof {
                let w = pow(r, i as nat);
                let p: int = prod as int;
                lemma_pow_positive(r, i as nat);
                lemma_seq_value_prefix(self.limbs@, i as int);
                lemma_seq_value_prefix(orig, i as int);
                assert(self.limbs@.take(i as int) =~= prev.take(i as int));
                lemma_pow1(r);
                lemma_pow_adds(r, i as nat, 1);
                assert(pow(r, (i + 1) as nat) == r * w) by {
                    assert(pow(r, 1) == r);
                    assert(pow(r, (i + 1) as nat) == w * r);
                }
                lemma_carry_weight(p, r, w);
                assert(p * w == (orig[i as int] * (small as int) + c) * w);
                assert((orig[i as int] * (small as int) + c) * w == (small as int) * (orig[
                    i as int
                ] * w) + c * w) by (nonlinear_arith);
                assert((small as nat) * seq_value(orig.take(i + 1)) == (small as nat) * seq_value(
                    orig.take(i as int),
                ) + (small as int) * (orig[i as int] * w)) by (nonlinear_arith)
                    requires
                        seq_value(orig.take(i + 1)) == seq_value(orig.take(i as int)) + orig[
                            i as int
                        ] * w,
                ;
            }
            i += 1;
        }
        proof {
            assert(self.limbs@.take(n as int) =~= self.limbs@);
            assert(orig.take(n as int) =~= orig);
        }
        self.flush_carry(carry);
        self.normalize();
        proof {
            assert((small as nat) * seq_value(orig) == seq_value(orig) * (small as nat))
                by (nonlinear_arith);
        }
    }

    /// Add `small` to the magnitude in place.
    pub fn add_small(&mut self, small: usize)
        requires
            old(self).wf(),
        ensures
            final(self).wf(),
            final(self).value() == old(self).value() + small,
    {
        let ghost orig = self.limbs@;
        let n = self.limbs.len();
        let mut carry: u128 = small as u128;
        let mut i: usize = 0;
        proof {
            assert(orig.take(0) =~= Seq::<u64>::empty());
            assert(seq_value(Seq::<u64>::empty()) == 0);
            lemma_pow0(LIMB_RADIX as int);
        }
        while i < n && carry > 0
            invariant
                self.limbs@.len() == n == orig.len(),
                i <= n,
                carry < LIMB_RADIX,
                forall|j: int| i <= j < n ==> self.limbs@[j] == orig[j],
                seq_value(self.limbs@.take(i as int)) + carry * pow(LIMB_RADIX as int, i as nat)
                    == seq_value(orig.take(i as int)) + small,
            decreases n - i,
        {
            let ghost prev = self.limbs@;
            let ghost c: int = carry as int;
            let ghost r: int = LIMB_RADIX as int;
            let limb = self.limbs[i];
            let sum: u128 = (limb as u128) + carry;
            self.limbs[i] = (sum % LIMB_RADIX) as u64;
            carry = sum / LIMB_RADIX;
            proof {
                let w = pow(r, i as nat);
                let p: int = sum as int;
                lemma_pow_positive(r, i as nat);
                lemma_seq_value_prefix(self.limbs@, i as int);
                lemma_seq_value_prefix(orig, i as int);
                assert(self.limbs@.take(i as int) =~= prev.take(i as int));
                lemma_pow1(r);
                lemma_pow_adds(r, i as nat, 1);
                assert(pow(r, (i + 1) as nat) == r * w) by {
                    assert(pow(r, 1) == r);
                    assert(pow(r, (i + 1) as nat) == w * r);
                }
                lemma_carry_weight(p, r, w);
                assert(p * w == orig[i as int] * w + c * w) by (nonlinear_arith)
                    requires
                        p == orig[i as int] + c,
                ;
            }
            i += 1;
        }
        proof {
            if carry == 0 {
                lemma_seq_value_split(self.limbs@, i as int);
                lemma_seq_value_split(orig, i as int);
                assert(self.limbs@.skip(i as int) =~= orig.skip(i as int));
                assert(seq_value(self.limbs@) + carry * pow(
                    LIMB_RADIX as int,
                    self.limbs@.len() as nat,
                ) == seq_value(orig) + small);
            } else {
                assert(self.limbs@.take(n as int) =~= self.limbs@);
                assert(orig.take(n as int) =~= orig);
            }
        }
        self.flush_carry(carry);
        self.normalize();
    }

    /// Divide the magnitude in place by `small`, returning the remainder.
    ///
    /// A divisor of zero is reported as `DivisionByZero` and leaves the
    /// magnitude untouched; the conversion algorithm never passes one, so
    /// this is a defensive contract, not a user-facing condition.
    pub fn div_mod_small(&mut self, small: usize) -> (r: Result<usize, ConvertError>)
        requires
            old(self).wf(),
        ensures
            small == 0 ==> r == Err::<usize, ConvertError>(ConvertError::DivisionByZero)
                && *final(self) == *old(self),
            small != 0 ==> {
                &&& final(self).wf()
                &&& r matches Ok(rem) && rem as nat == old(self).value() % (small as nat)
                &&& final(self).value() == old(self).value() / (small as nat)
            },
    {
        if small == 0 {
            return Err(ConvertError::DivisionByZero);
        }
        let ghost orig = self.limbs@;
        let k: u128 = small as u128;
        let mut rem: u128 = 0;
        let mut i: usize = self.limbs.len();
        proof {
            assert(orig.skip(orig.len() as int) =~= Seq::<u64>::empty());
            assert(seq_value(Seq::<u64>::empty()) == 0);
        }
        while i > 0
            invariant
                self.limbs@.len() == orig.len() >= 1,
                i <= orig.len(),
                k == small as u128,
                1 <= small,
                rem < k,
                forall|j: int| 0 <= j < i ==> self.limbs@[j] == orig[j],
                seq_value(orig.skip(i as int)) == (small as nat) * seq_value(
                    self.limbs@.skip(i as int),
                ) + rem,
            decreases i,
        {
            i -= 1;
            let ghost prev = self.limbs@;
            let ghost rem0: int = rem as int;
            let ghost r: int = LIMB_RADIX as int;
            let limb = self.limbs[i];
            assert(rem * LIMB_RADIX + (limb as u128) <= u128::MAX) by (nonlinear_arith)
                requires
                    rem < k,
                    k <= u64::MAX,
                    limb < LIMB_RADIX,
            ;
            let v: u128 = rem * LIMB_RADIX + (limb as u128);
            assert(v / k < LIMB_RADIX) by (nonlinear_arith)
                requires
                    v < k * LIMB_RADIX,
                    k >= 1,
            ;
            let q = (v / k) as u64;
            rem = v % k;
            self.limbs[i] = q;
            proof {
                lemma_fundamental_div_mod(v as int, k as int);
                assert(orig.skip(i as int).drop_first() =~= orig.skip(i + 1));
                assert(self.limbs@.skip(i as int).drop_first() =~= self.limbs@.skip(i + 1));
                assert(self.limbs@.skip(i + 1) =~= prev.skip(i + 1));
                assert(orig.skip(i as int)[0] == orig[i as int]);
                assert(self.limbs@.skip(i as int)[0] == q);
                let qq = seq_value(prev.skip(i + 1)) as int;
                assert(seq_value(orig.skip(i as int)) == orig[i as int] + r * ((small as int) * qq
                    + rem0));
                assert(orig[i as int] + r * ((small as int) * qq + rem0) == (small as int) * (
                q as int + r * qq) + rem) by (nonlinear_arith)
                    requires
                        r * rem0 + orig[i as int] == (small as int) * (q as int) + rem,
                ;
                assert(seq_value(self.limbs@.skip(i as int)) == q as nat + (LIMB_RADIX as nat)
                    * seq_value(self.limbs@.skip(i + 1)));
            }
        }
        proof {
            assert(orig.skip(0) =~= orig);
            assert(self.limbs@.skip(0) =~= self.limbs@);
            assert(seq_value(orig) as int == seq_value(self.limbs@) * (small as int) + rem)
                by (nonlinear_arith)
                requires
                    seq_value(orig) == (small as nat) * seq_value(self.limbs@) + rem,
            ;
            lemma_fundamental_div_mod_converse(
                seq_value(orig) as int,
                small as int,
                seq_value(self.limbs@) as int,
                rem as int,
            );
        }
        self.normalize();
        Ok(rem as usize)
    }
}

} // verus!
