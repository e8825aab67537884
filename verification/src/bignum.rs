//! Natural numbers without a bound, as far as comparing two products needs them.
use vstd::prelude::*;

verus! {

/// The number of values of a digit.
pub open spec fn base() -> nat {
    0x1_0000_0000_0000_0000
}

/// The weight of the digit at position `k`.
pub open spec fn place(k: nat) -> nat
    decreases k,
{
    if k == 0 {
        1
    } else {
        base() * place((k - 1) as nat)
    }
}

/// The value of the digits, the least significant one first.
pub open spec fn value(digits: Seq<u64>) -> nat
    decreases digits.len(),
{
    if digits.len() == 0 {
        0
    } else {
        value(digits.drop_last()) + digits.last() as nat * place((digits.len() - 1) as nat)
    }
}

/// A natural number.
pub struct BigNat {
    digits: Vec<u64>,
}

impl View for BigNat {
    type V = nat;

    closed spec fn view(&self) -> nat {
        value(self.digits@)
    }
}

proof fn lemma_value_below(digits: Seq<u64>)
    ensures
        value(digits) < place(digits.len()),
    decreases digits.len(),
{
    if digits.len() > 0 {
        let rest = digits.drop_last();
        lemma_value_below(rest);
        let p = place(rest.len());
        let d = digits.last() as nat;
        assert(place(digits.len()) == base() * p);
        assert(value(rest) + d * p < base() * p) by (nonlinear_arith)
            requires
                value(rest) < p,
                d <= base() - 1,
                base() > 0,
        ;
    }
}

proof fn lemma_push_zero(digits: Seq<u64>)
    ensures
        value(digits.push(0)) == value(digits),
{
    assert(digits.push(0).drop_last() =~= digits);
    assert(0 * place(digits.len()) == 0);
}

/// Digits that agree above position `i` and differ there compare as they do there.
proof fn lemma_first_difference(a: Seq<u64>, b: Seq<u64>, i: int)
    requires
        a.len() == b.len(),
        0 <= i < a.len(),
        a[i] < b[i],
        forall|j: int| i < j < a.len() ==> a[j] == b[j],
    ensures
        value(a) < value(b),
    decreases a.len(),
{
    let p = place((a.len() - 1) as nat);
    if i == a.len() - 1 {
        lemma_value_below(a.drop_last());
        let x = value(a.drop_last());
        let y = value(b.drop_last());
        let d = a.last() as nat;
        let e = b.last() as nat;
        assert(x + d * p < y + e * p) by (nonlinear_arith)
            requires
                x < p,
                d + 1 <= e,
        ;
    } else {
        assert forall|j: int| i < j < a.drop_last().len() implies a.drop_last()[j]
            == b.drop_last()[j] by {
            assert(a[j] == b[j]);
        }
        lemma_first_difference(a.drop_last(), b.drop_last(), i);
        assert(a[a.len() - 1] == b[a.len() - 1]);
    }
}

impl BigNat {
    /// The number one.
    pub fn one() -> (r: BigNat)
        ensures
            r@ == 1,
    {
        let mut digits: Vec<u64> = Vec::new();
        digits.push(1);
        assert(digits@.drop_last() =~= Seq::<u64>::empty());
        assert(value(digits@) == 1) by {
            assert(place(0) == 1);
            assert(value(digits@.drop_last()) == 0);
        }
        BigNat { digits }
    }

    /// The number `n`.
    pub fn from_u128(n: u128) -> (r: BigNat)
        ensures
            r@ == n,
    {
        let mut digits: Vec<u64> = Vec::new();
        let low: u64 = (n % 0x1_0000_0000_0000_0000) as u64;
        let high: u64 = (n / 0x1_0000_0000_0000_0000) as u64;
        digits.push(low);
        digits.push(high);
        proof {
            let first = digits@.drop_last();
            assert(first.drop_last() =~= Seq::<u64>::empty());
            assert(value(first.drop_last()) == 0);
            assert(place(0) == 1);
            assert(place(1) == base() * place(0));
            assert(value(first) == low);
            assert(value(digits@) == low + high as nat * base());
        }
        BigNat { digits }
    }

    /// The product with `m`.
    pub fn times(&self, m: u64) -> (r: BigNat)
        ensures
            r@ == self@ * m,
    {
        let mut out: Vec<u64> = Vec::new();
        let mut carry: u64 = 0;
        let mut k: usize = 0;
        assert(value(self.digits@.take(0)) == 0);
        assert(0 * place(0) == 0 && 0 * m as nat == 0);
        while k < self.digits.len()
            invariant
                k <= self.digits@.len(),
                out@.len() == k,
                value(out@) + carry as nat * place(k as nat) == value(self.digits@.take(k as int))
                    * m as nat,
            decreases self.digits.len() - k,
        {
            let d = self.digits[k];
            assert(d as int * m as int + carry as int <= u128::MAX) by (nonlinear_arith)
                requires
                    d <= 0xffff_ffff_ffff_ffff,
                    m <= 0xffff_ffff_ffff_ffff,
                    carry <= 0xffff_ffff_ffff_ffff,
            ;
            assert(d as int * m as int <= u128::MAX) by (nonlinear_arith)
                requires
                    d <= 0xffff_ffff_ffff_ffff,
                    m <= 0xffff_ffff_ffff_ffff,
            ;
            let x: u128 = d as u128 * m as u128 + carry as u128;
            let low: u64 = (x % 0x1_0000_0000_0000_0000) as u64;
            let high: u64 = (x / 0x1_0000_0000_0000_0000) as u64;
            let ghost old_out = out@;
            out.push(low);
            proof {
                let p = place(k as nat);
                let next = self.digits@.take(k as int + 1);
                assert(next.drop_last() =~= self.digits@.take(k as int));
                assert(next.last() == d);
                assert(out@.drop_last() =~= old_out);
                let v = value(self.digits@.take(k as int));
                let o = value(old_out);
                assert(value(next) == v + d as nat * p);
                assert(place((k + 1) as nat) == base() * p);
                assert(x == low + high * base());
                assert((o + low as nat * p) + high as nat * (base() * p) == (v + d as nat * p)
                    * m as nat) by (nonlinear_arith)
                    requires
                        o + carry as nat * p == v * m as nat,
                        d as int * m as int + carry as int == low + high * base(),
                ;
            }
            carry = high;
            k += 1;
        }
        proof {
            assert(self.digits@.take(self.digits@.len() as int) =~= self.digits@);
        }
        if carry > 0 {
            let ghost old_out = out@;
            out.push(carry);
            assert(out@.drop_last() =~= old_out);
        } else {
            assert(carry as nat * place(k as nat) == 0) by (nonlinear_arith)
                requires
                    carry == 0,
            ;
        }
        BigNat { digits: out }
    }

    /// Tells whether `self` is at least `other`.
    pub fn at_least(&self, other: &BigNat) -> (r: bool)
        ensures
            r == (self@ >= other@),
    {
        let mut a: Vec<u64> = self.digits.clone();
        let mut b: Vec<u64> = other.digits.clone();
        assert(a@ =~= self.digits@);
        assert(b@ =~= other.digits@);
        while a.len() < b.len()
            invariant
                value(a@) == self@,
            decreases b.len() - a.len(),
        {
            proof {
                lemma_push_zero(a@);
            }
            a.push(0);
        }
        while b.len() < a.len()
            invariant
                value(b@) == other@,
                b.len() <= a.len(),
            decreases a.len() - b.len(),
        {
            proof {
                lemma_push_zero(b@);
            }
            b.push(0);
        }
        let mut i: usize = a.len();
        while i > 0
            invariant
                i <= a@.len(),
                a@.len() == b@.len(),
                value(a@) == self@,
                value(b@) == other@,
                forall|j: int| i <= j < a@.len() ==> a@[j] == b@[j],
            decreases i,
        {
            if a[i - 1] < b[i - 1] {
                proof {
                    lemma_first_difference(a@, b@, i - 1);
                }
                return false;
            }
            if a[i - 1] > b[i - 1] {
                proof {
                    lemma_first_difference(b@, a@, i - 1);
                }
                return true;
            }
            i -= 1;
        }
        assert(a@ =~= b@);
        true
    }
}

} // verus!
