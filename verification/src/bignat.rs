//! Natural numbers of any size, held as little-endian limbs of 32 bits.
//!
//! Exact intermediate results of the temperature arithmetic (see
//! [`crate::binary32`]) do not fit a machine word; they are held here.

use vstd::prelude::*;
use vstd::arithmetic::power::*;
use vstd::arithmetic::power2::*;

verus! {

/// The weight of limb `i`: two to the power `32 * i`.
pub open spec fn weight(i: nat) -> nat
    decreases i,
{
    if i == 0 {
        1
    } else {
        0x1_0000_0000 * weight((i - 1) as nat)
    }
}

/// Limb `i` of `limbs`, with zeros beyond the stored ones.
pub open spec fn limb(limbs: Seq<u32>, i: int) -> nat {
    if 0 <= i < limbs.len() {
        limbs[i] as nat
    } else {
        0
    }
}

/// The number that the lowest `n` limbs stand for.
pub open spec fn low_value(limbs: Seq<u32>, n: nat) -> nat
    decreases n,
{
    if n == 0 {
        0
    } else {
        low_value(limbs, (n - 1) as nat) + limb(limbs, n - 1) * weight((n - 1) as nat)
    }
}

proof fn lemma_weight_adds(i: nat, j: nat)
    ensures
        weight(i + j) == weight(i) * weight(j),
    decreases j,
{
    if j > 0 {
        lemma_weight_adds(i, (j - 1) as nat);
        let wi = weight(i);
        let wj = weight((j - 1) as nat);
        assert(0x1_0000_0000 * (wi * wj) == wi * (0x1_0000_0000 * wj)) by (nonlinear_arith);
        assert(weight(i + j) == 0x1_0000_0000 * weight((i + j - 1) as nat));
    } else {
        assert(weight(i) * 1 == weight(i)) by (nonlinear_arith);
    }
}

/// Only the lowest `n` limbs count towards `low_value(.., n)`.
proof fn lemma_low_value_frame(a: Seq<u32>, b: Seq<u32>, n: nat)
    requires
        forall|j: int| 0 <= j < n ==> limb(a, j) == limb(b, j),
    ensures
        low_value(a, n) == low_value(b, n),
    decreases n,
{
    if n > 0 {
        lemma_low_value_frame(a, b, (n - 1) as nat);
        assert(limb(a, n - 1) == limb(b, n - 1));
    }
}

/// Limbs beyond the stored ones add nothing.
proof fn lemma_low_value_beyond(a: Seq<u32>, n: nat)
    requires
        n >= a.len(),
    ensures
        low_value(a, n) == low_value(a, a.len()),
    decreases n,
{
    if n > a.len() {
        lemma_low_value_beyond(a, (n - 1) as nat);
        assert(0 * weight((n - 1) as nat) == 0) by (nonlinear_arith);
    }
}

proof fn lemma_low_value_bound(a: Seq<u32>, n: nat)
    ensures
        low_value(a, n) < weight(n),
    decreases n,
{
    if n > 0 {
        lemma_low_value_bound(a, (n - 1) as nat);
        let w = weight((n - 1) as nat);
        let d = limb(a, n - 1);
        assert(d * w <= 0xffff_ffff * w) by (nonlinear_arith)
            requires
                d <= 0xffff_ffff,
        ;
    }
}

/// A natural number.
pub struct BigNat {
    limbs: Vec<u32>,
}

impl View for BigNat {
    type V = nat;

    closed spec fn view(&self) -> nat {
        low_value(self.limbs@, self.limbs@.len())
    }
}

impl BigNat {
    /// The number `x`.
    pub fn from_u32(x: u32) -> (r: BigNat)
        ensures
            r@ == x,
    {
        let mut limbs: Vec<u32> = Vec::new();
        limbs.push(x);
        proof {
            assert(weight(0) == 1 && low_value(limbs@, 0) == 0);
            assert(low_value(limbs@, 1) == low_value(limbs@, 0) + limb(limbs@, 0) * weight(0));
        }
        BigNat { limbs }
    }

    /// The number `x`.
    pub fn from_u64(x: u64) -> (r: BigNat)
        ensures
            r@ == x,
    {
        let mut limbs: Vec<u32> = Vec::new();
        limbs.push((x % 0x1_0000_0000) as u32);
        limbs.push((x / 0x1_0000_0000) as u32);
        proof {
            assert(weight(0) == 1 && weight(1) == 0x1_0000_0000 * weight(0));
            assert(low_value(limbs@, 0) == 0);
            assert(low_value(limbs@, 1) == low_value(limbs@, 0) + limb(limbs@, 0) * weight(0));
            assert(low_value(limbs@, 2) == low_value(limbs@, 1) + limb(limbs@, 1) * weight(1));
        }
        BigNat { limbs }
    }

    /// Another handle on the same number.
    pub fn duplicate(&self) -> (r: BigNat)
        ensures
            r@ == self@,
    {
        let mut limbs: Vec<u32> = Vec::new();
        let n: usize = self.limbs.len();
        for i in 0..n
            invariant
                n == self.limbs@.len(),
                limbs@ =~= self.limbs@.take(i as int),
        {
            limbs.push(self.limbs[i]);
        }
        assert(limbs@ =~= self.limbs@);
        BigNat { limbs }
    }

    fn limb_at(&self, i: usize) -> (d: u32)
        ensures
            d == limb(self.limbs@, i as int),
    {
        if i < self.limbs.len() {
            self.limbs[i]
        } else {
            0
        }
    }

    /// `self * m + a`.
    pub fn mul_add_small(&self, m: u32, a: u32) -> (r: BigNat)
        ensures
            r@ == self@ * m + a,
    {
        let mut out: Vec<u32> = Vec::new();
        let mut carry: u32 = a;
        let n: usize = self.limbs.len();
        assert(low_value(self.limbs@, 0) * m == 0 && carry * weight(0) == carry)
            by (nonlinear_arith)
            requires
                low_value(self.limbs@, 0) == 0,
                weight(0) == 1,
        ;
        for i in 0..n
            invariant
                n == self.limbs@.len(),
                out@.len() == i,
                low_value(out@, i as nat) + carry * weight(i as nat) == low_value(
                    self.limbs@,
                    i as nat,
                ) * m + a,
        {
            let d: u32 = self.limbs[i];
            assert(d * m + carry <= 0xffff_ffff * 0xffff_ffff + 0xffff_ffff) by (nonlinear_arith)
                requires
                    d <= 0xffff_ffff,
                    m <= 0xffff_ffff,
                    carry <= 0xffff_ffff,
            ;
            assert(d * m >= 0) by (nonlinear_arith);
            let t: u64 = d as u64 * m as u64 + carry as u64;
            let lo: u32 = (t % 0x1_0000_0000) as u32;
            let hi: u32 = (t / 0x1_0000_0000) as u32;
            let ghost before = out@;
            out.push(lo);
            proof {
                lemma_low_value_frame(before, out@, i as nat);
                let w = weight(i as nat);
                let low = low_value(self.limbs@, i as nat);
                assert(low_value(out@, (i + 1) as nat) == low_value(before, i as nat) + lo * w);
                assert(weight((i + 1) as nat) == 0x1_0000_0000 * w);
                assert(lo * w + hi * (0x1_0000_0000 * w) == t * w) by (nonlinear_arith)
                    requires
                        t == lo + hi * 0x1_0000_0000,
                ;
                assert(t * w == (d * w) * m + carry * w) by (nonlinear_arith)
                    requires
                        t == d * m + carry,
                ;
                assert((low + d * w) * m == low * m + (d * w) * m) by (nonlinear_arith);
            }
            carry = hi;
        }
        let ghost before = out@;
        out.push(carry);
        proof {
            lemma_low_value_frame(before, out@, n as nat);
        }
        BigNat { limbs: out }
    }

    /// The sum.
    pub fn plus(&self, other: &BigNat) -> (r: BigNat)
        ensures
            r@ == self@ + other@,
    {
        let n: usize = if self.limbs.len() >= other.limbs.len() {
            self.limbs.len()
        } else {
            other.limbs.len()
        };
        let mut out: Vec<u32> = Vec::new();
        let mut carry: u32 = 0;
        for i in 0..n
            invariant
                out@.len() == i,
                carry <= 1,
                low_value(out@, i as nat) + carry * weight(i as nat) == low_value(
                    self.limbs@,
                    i as nat,
                ) + low_value(other.limbs@, i as nat),
        {
            let x: u32 = self.limb_at(i);
            let y: u32 = other.limb_at(i);
            let t: u64 = x as u64 + y as u64 + carry as u64;
            let lo: u32 = (t % 0x1_0000_0000) as u32;
            let hi: u32 = (t / 0x1_0000_0000) as u32;
            let ghost before = out@;
            out.push(lo);
            proof {
                lemma_low_value_frame(before, out@, i as nat);
                let w = weight(i as nat);
                assert(weight((i + 1) as nat) == 0x1_0000_0000 * w);
                assert(lo * w + hi * (0x1_0000_0000 * w) == x * w + y * w + carry * w)
                    by (nonlinear_arith)
                    requires
                        x + y + carry == lo + hi * 0x1_0000_0000,
                ;
            }
            carry = hi;
        }
        let ghost before = out@;
        out.push(carry);
        proof {
            lemma_low_value_frame(before, out@, n as nat);
            lemma_low_value_beyond(self.limbs@, n as nat);
            lemma_low_value_beyond(other.limbs@, n as nat);
        }
        BigNat { limbs: out }
    }

    /// The difference, where it is a natural number.
    pub fn minus(&self, other: &BigNat) -> (r: BigNat)
        requires
            self@ >= other@,
        ensures
            r@ == self@ - other@,
    {
        let n: usize = if self.limbs.len() >= other.limbs.len() {
            self.limbs.len()
        } else {
            other.limbs.len()
        };
        let mut out: Vec<u32> = Vec::new();
        let mut borrow: u32 = 0;
        for i in 0..n
            invariant
                out@.len() == i,
                borrow <= 1,
                low_value(out@, i as nat) - borrow * weight(i as nat) == low_value(
                    self.limbs@,
                    i as nat,
                ) - low_value(other.limbs@, i as nat),
        {
            let x: u32 = self.limb_at(i);
            let y: u32 = other.limb_at(i);
            let t: u64 = 0x1_0000_0000 + x as u64 - y as u64 - borrow as u64;
            let lo: u32 = (t % 0x1_0000_0000) as u32;
            let next: u32 = 1 - (t / 0x1_0000_0000) as u32;
            let ghost before = out@;
            out.push(lo);
            proof {
                lemma_low_value_frame(before, out@, i as nat);
                let w = weight(i as nat);
                assert(weight((i + 1) as nat) == 0x1_0000_0000 * w);
                assert(lo * w - next * (0x1_0000_0000 * w) == x * w - y * w - borrow * w)
                    by (nonlinear_arith)
                    requires
                        x - y - borrow == lo - next * 0x1_0000_0000,
                ;
            }
            borrow = next;
        }
        proof {
            lemma_low_value_beyond(self.limbs@, n as nat);
            lemma_low_value_beyond(other.limbs@, n as nat);
            lemma_low_value_bound(out@, n as nat);
        }
        BigNat { limbs: out }
    }

    /// `self` moved up by `k` whole limbs.
    fn shift_limbs(&self, k: usize) -> (r: BigNat)
        ensures
            r@ == self@ * weight(k as nat),
    {
        let mut out: Vec<u32> = Vec::new();
        for i in 0..k
            invariant
                out@.len() == i,
                low_value(out@, i as nat) == 0,
        {
            let ghost before = out@;
            out.push(0);
            proof {
                lemma_low_value_frame(before, out@, i as nat);
                assert(0 * weight(i as nat) == 0) by (nonlinear_arith);
            }
        }
        let n: usize = self.limbs.len();
        assert(low_value(self.limbs@, 0) * weight(k as nat) == 0) by (nonlinear_arith)
            requires
                low_value(self.limbs@, 0) == 0,
        ;
        for i in 0..n
            invariant
                n == self.limbs@.len(),
                out@.len() == k + i,
                low_value(out@, (k + i) as nat) == low_value(self.limbs@, i as nat) * weight(
                    k as nat,
                ),
        {
            let d: u32 = self.limbs[i];
            let ghost before = out@;
            out.push(d);
            proof {
                lemma_low_value_frame(before, out@, (k + i) as nat);
                lemma_weight_adds(k as nat, i as nat);
                let low = low_value(self.limbs@, i as nat);
                let wi = weight(i as nat);
                let wk = weight(k as nat);
                assert((low + d * wi) * wk == low * wk + d * (wk * wi)) by (nonlinear_arith);
            }
        }
        BigNat { limbs: out }
    }

    /// The product.
    pub fn times(&self, other: &BigNat) -> (r: BigNat)
        ensures
            r@ == self@ * other@,
    {
        let mut acc: BigNat = BigNat::from_u32(0);
        let n: usize = other.limbs.len();
        assert(self@ * low_value(other.limbs@, 0) == 0) by (nonlinear_arith)
            requires
                low_value(other.limbs@, 0) == 0,
        ;
        for i in 0..n
            invariant
                n == other.limbs@.len(),
                acc@ == self@ * low_value(other.limbs@, i as nat),
        {
            let d: u32 = other.limbs[i];
            let row: BigNat = self.mul_add_small(d, 0).shift_limbs(i);
            acc = acc.plus(&row);
            proof {
                let s = self@;
                let low = low_value(other.limbs@, i as nat);
                let w = weight(i as nat);
                assert(s * low + (s * d) * w == s * (low + d * w)) by (nonlinear_arith);
            }
        }
        acc
    }

    /// `self` times two to the power `k`.
    pub fn shift_left(&self, k: u32) -> (r: BigNat)
        ensures
            r@ == self@ * pow2(k as nat),
    {
        let mut r: BigNat = self.duplicate();
        let mut left: u32 = k;
        while left >= 16
            invariant
                left <= k,
                r@ * pow2(left as nat) == self@ * pow2(k as nat),
            decreases left,
        {
            proof {
                lemma2_to64();
                lemma_pow2_adds((left - 16) as nat, 16);
                let p = pow2((left - 16) as nat);
                assert((r@ * 0x1_0000) * p == r@ * (p * 0x1_0000)) by (nonlinear_arith);
            }
            r = r.mul_add_small(0x1_0000, 0);
            left = left - 16;
        }
        while left > 0
            invariant
                left <= k,
                r@ * pow2(left as nat) == self@ * pow2(k as nat),
            decreases left,
        {
            proof {
                lemma_pow2_unfold(left as nat);
                let p = pow2((left - 1) as nat);
                assert((r@ * 2) * p == r@ * (2 * p)) by (nonlinear_arith);
            }
            r = r.mul_add_small(2, 0);
            left = left - 1;
        }
        proof {
            lemma2_to64();
            assert(r@ * 1 == r@) by (nonlinear_arith);
        }
        r
    }

    /// `self` times ten to the power `k`.
    pub fn scale_by_ten(&self, k: u128) -> (r: BigNat)
        ensures
            r@ == self@ * pow(10, k as nat),
    {
        let mut r: BigNat = self.duplicate();
        let mut left: u128 = k;
        while left > 0
            invariant
                left <= k,
                r@ * pow(10, left as nat) == self@ * pow(10, k as nat),
            decreases left,
        {
            proof {
                reveal(pow);
                let p = pow(10, (left - 1) as nat);
                assert((r@ * 10) * p == r@ * (10 * p)) by (nonlinear_arith);
            }
            r = r.mul_add_small(10, 0);
            left = left - 1;
        }
        proof {
            reveal(pow);
        }
        r
    }

    /// Whether `self` is at most `other`.
    pub fn at_most(&self, other: &BigNat) -> (r: bool)
        ensures
            r == (self@ <= other@),
    {
        let n: usize = if self.limbs.len() >= other.limbs.len() {
            self.limbs.len()
        } else {
            other.limbs.len()
        };
        proof {
            lemma_low_value_beyond(self.limbs@, n as nat);
            lemma_low_value_beyond(other.limbs@, n as nat);
        }
        let mut i: usize = n;
        while i > 0
            invariant
                i <= n,
                self@ - low_value(self.limbs@, i as nat) == other@ - low_value(
                    other.limbs@,
                    i as nat,
                ),
            decreases i,
        {
            i = i - 1;
            let x: u32 = self.limb_at(i);
            let y: u32 = other.limb_at(i);
            if x != y {
                proof {
                    lemma_low_value_bound(self.limbs@, i as nat);
                    lemma_low_value_bound(other.limbs@, i as nat);
                    let w = weight(i as nat);
                    if x < y {
                        assert(x * w + w <= y * w) by (nonlinear_arith)
                            requires
                                x + 1 <= y,
                        ;
                    } else {
                        assert(y * w + w <= x * w) by (nonlinear_arith)
                            requires
                                y + 1 <= x,
                        ;
                    }
                }
                return x < y;
            }
        }
        true
    }
}

} // verus!
