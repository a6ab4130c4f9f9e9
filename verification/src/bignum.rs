//! Arbitrary-precision naturals: little-endian limbs in base 2^32.
//!
//! Only what digit generation needs is offered: scaling by small factors
//! and by powers of two, subtraction, and comparison.
use crate::power::{lemma_pow2_adds, pow2};
use vstd::prelude::*;

verus! {

/// The limb base, `2^32`.
pub open spec fn base() -> nat {
    0x1_0000_0000
}

/// `base()^n`.
pub open spec fn base_pow(n: nat) -> nat
    decreases n,
{
    if n == 0 {
        1
    } else {
        base() * base_pow((n - 1) as nat)
    }
}

/// The natural number that a little-endian limb sequence stands for.
pub open spec fn limbs_value(s: Seq<u32>) -> nat
    decreases s.len(),
{
    if s.len() == 0 {
        0
    } else {
        limbs_value(s.drop_last()) + s.last() as nat * base_pow((s.len() - 1) as nat)
    }
}

/// How two naturals compare.
#[derive(Clone, Copy, Debug, PartialEq, Eq)]
pub enum Order {
    Less,
    Equal,
    Greater,
}

/// A natural number of any size.
pub struct Big {
    limbs: Vec<u32>,
}

proof fn lemma_base_pow_positive(n: nat)
    ensures
        base_pow(n) >= 1,
    decreases n,
{
    if n > 0 {
        lemma_base_pow_positive((n - 1) as nat);
    }
}

proof fn lemma_base_pow_monotonic(a: nat, b: nat)
    requires
        a <= b,
    ensures
        base_pow(a) <= base_pow(b),
    decreases b,
{
    if a < b {
        lemma_base_pow_monotonic(a, (b - 1) as nat);
        lemma_base_pow_positive((b - 1) as nat);
    }
}

proof fn lemma_value_upper(s: Seq<u32>)
    ensures
        limbs_value(s) < base_pow(s.len()),
    decreases s.len(),
{
    if s.len() > 0 {
        lemma_value_upper(s.drop_last());
        let p = base_pow((s.len() - 1) as nat);
        let l = s.last() as nat;
        assert(l * p + p <= base() * p) by (nonlinear_arith)
            requires
                l + 1 <= base(),
                p >= 0,
        ;
    }
}

proof fn lemma_value_lower(s: Seq<u32>)
    requires
        s.len() > 0,
        s.last() != 0,
    ensures
        limbs_value(s) >= base_pow((s.len() - 1) as nat),
{
    let p = base_pow((s.len() - 1) as nat);
    let l = s.last() as nat;
    assert(l * p >= p) by (nonlinear_arith)
        requires
            l >= 1,
            p >= 0,
    ;
}

proof fn lemma_prefix_step(s: Seq<u32>, i: int)
    requires
        0 <= i < s.len(),
    ensures
        limbs_value(s.subrange(0, i + 1)) == limbs_value(s.subrange(0, i)) + s[i] as nat
            * base_pow(i as nat),
{
    let t = s.subrange(0, i + 1);
    assert(t.drop_last() =~= s.subrange(0, i));
    assert(t.last() == s[i]);
}

proof fn lemma_drop_zero(s: Seq<u32>)
    requires
        s.len() > 0,
        s.last() == 0,
    ensures
        limbs_value(s) == limbs_value(s.drop_last()),
{
    assert(0 * base_pow((s.len() - 1) as nat) == 0);
}

/// With equal limbs above index `i` and a smaller limb at `i`, the value is smaller.
proof fn lemma_compare_at(a: Seq<u32>, b: Seq<u32>, i: int)
    requires
        a.len() == b.len(),
        0 <= i < a.len(),
        a[i] < b[i],
        forall|j: int| i < j < a.len() ==> a[j] == b[j],
    ensures
        limbs_value(a) < limbs_value(b),
    decreases a.len(),
{
    let n = a.len();
    if i == n - 1 {
        lemma_value_upper(a.drop_last());
        let p = base_pow((n - 1) as nat);
        let x = a.last() as nat;
        let y = b.last() as nat;
        assert(x * p + p <= y * p) by (nonlinear_arith)
            requires
                x + 1 <= y,
                p >= 0,
        ;
    } else {
        lemma_compare_at(a.drop_last(), b.drop_last(), i);
    }
}

proof fn lemma_equal_limbs(a: Seq<u32>, b: Seq<u32>)
    requires
        a.len() == b.len(),
        forall|j: int| 0 <= j < a.len() ==> a[j] == b[j],
    ensures
        a == b,
{
    assert(a =~= b);
}

impl View for Big {
    type V = nat;

    closed spec fn view(&self) -> nat {
        limbs_value(self.limbs@)
    }
}

impl Big {
    /// No limb is wasted: the top limb is non-zero, and zero has no limbs.
    pub closed spec fn wf(&self) -> bool {
        self.limbs@.len() > 0 ==> self.limbs@.last() != 0
    }

    fn trim(&mut self)
        ensures
            final(self).wf(),
            final(self)@ == old(self)@,
    {
        while self.limbs.len() > 0 && self.limbs[self.limbs.len() - 1] == 0
            invariant
                self@ == old(self)@,
            decreases self.limbs.len(),
        {
            proof {
                lemma_drop_zero(self.limbs@);
            }
            self.limbs.pop();
        }
    }

    /// The number `x`.
    pub fn from_u64(x: u64) -> (r: Big)
        ensures
            r.wf(),
            r@ == x,
    {
        let lo: u32 = (x % 0x1_0000_0000) as u32;
        let hi: u32 = (x / 0x1_0000_0000) as u32;
        let mut limbs: Vec<u32> = Vec::new();
        limbs.push(lo);
        limbs.push(hi);
        let mut r = Big { limbs };
        proof {
            let s = r.limbs@;
            assert(s.drop_last() =~= seq![lo]);
            assert(seq![lo].drop_last() =~= Seq::<u32>::empty());
            assert(limbs_value(Seq::<u32>::empty()) == 0);
            assert(base_pow(0) == 1);
            assert(base_pow(1) == base() * base_pow(0));
            assert(seq![lo].last() == lo);
            assert(limbs_value(seq![lo]) == limbs_value(seq![lo].drop_last()) + lo as nat
                * base_pow(0));
            assert(s.last() == hi);
            assert(limbs_value(s) == limbs_value(s.drop_last()) + hi as nat * base_pow(1));
            assert(limbs_value(s) == lo + hi * base());
        }
        r.trim();
        r
    }

    /// A copy of the number.
    pub fn duplicate(&self) -> (r: Big)
        ensures
            r@ == self@,
            self.wf() ==> r.wf(),
    {
        let mut limbs: Vec<u32> = Vec::new();
        let mut i: usize = 0;
        while i < self.limbs.len()
            invariant
                i <= self.limbs@.len(),
                limbs@ == self.limbs@.subrange(0, i as int),
            decreases self.limbs@.len() - i,
        {
            limbs.push(self.limbs[i]);
            i += 1;
            assert(limbs@ =~= self.limbs@.subrange(0, i as int));
        }
        assert(limbs@ =~= self.limbs@);
        Big { limbs }
    }

    /// Multiplies the number by `x` in place.
    pub fn mul_small(&mut self, x: u32)
        ensures
            final(self).wf(),
            final(self)@ == old(self)@ * x,
    {
        let n = self.limbs.len();
        let mut carry: u32 = 0;
        let mut i: usize = 0;
        proof {
            assert(self.limbs@.subrange(0, 0) =~= Seq::<u32>::empty());
            assert(limbs_value(Seq::<u32>::empty()) == 0);
            assert(0 * base_pow(0) == 0);
            assert(0 * x == 0);
        }
        while i < n
            invariant
                i <= n,
                self.limbs@.len() == n,
                old(self).limbs@.len() == n,
                forall|j: int| i <= j < n ==> self.limbs@[j] == old(self).limbs@[j],
                limbs_value(self.limbs@.subrange(0, i as int)) + carry as nat * base_pow(i as nat)
                    == limbs_value(old(self).limbs@.subrange(0, i as int)) * x,
            decreases n - i,
        {
            let ghost before = self.limbs@;
            let cur: u32 = self.limbs[i];
            assert(cur as u64 * x as u64 + carry as u64 <= u64::MAX) by (nonlinear_arith)
                requires
                    cur <= 0xffff_ffff,
                    x <= 0xffff_ffff,
                    carry <= 0xffff_ffff,
            ;
            let v: u64 = cur as u64 * x as u64 + carry as u64;
            let lo: u32 = (v % 0x1_0000_0000) as u32;
            let hi: u32 = (v / 0x1_0000_0000) as u32;
            self.limbs.set(i, lo);
            proof {
                let p = base_pow(i as nat);
                let a = limbs_value(before.subrange(0, i as int));
                let o = limbs_value(old(self).limbs@.subrange(0, i as int));
                assert(self.limbs@.subrange(0, i as int) =~= before.subrange(0, i as int));
                lemma_prefix_step(self.limbs@, i as int);
                lemma_prefix_step(old(self).limbs@, i as int);
                assert(base_pow((i + 1) as nat) == base() * p);
                assert(v == lo + hi * base());
                assert(a + lo * p + hi * (base() * p) == (o + cur * p) * x) by (nonlinear_arith)
                    requires
                        a + carry * p == o * x,
                        cur * x + carry == lo + hi * base(),
                ;
            }
            carry = hi;
            i += 1;
        }
        proof {
            assert(self.limbs@.subrange(0, n as int) =~= self.limbs@);
            assert(old(self).limbs@.subrange(0, n as int) =~= old(self).limbs@);
        }
        if carry > 0 {
            let ghost before = self.limbs@;
            self.limbs.push(carry);
            proof {
                assert(self.limbs@.drop_last() =~= before);
            }
        } else {
            proof {
                assert(0 * base_pow(n as nat) == 0);
            }
            self.trim();
        }
    }

    /// Compares the number with `other`.
    pub fn compare(&self, other: &Big) -> (o: Order)
        requires
            self.wf(),
            other.wf(),
        ensures
            o is Less <==> self@ < other@,
            o is Equal <==> self@ == other@,
            o is Greater <==> self@ > other@,
    {
        let n = self.limbs.len();
        let m = other.limbs.len();
        if n < m {
            proof {
                lemma_value_upper(self.limbs@);
                lemma_value_lower(other.limbs@);
                lemma_base_pow_monotonic(n as nat, (m - 1) as nat);
            }
            return Order::Less;
        }
        if n > m {
            proof {
                lemma_value_upper(other.limbs@);
                lemma_value_lower(self.limbs@);
                lemma_base_pow_monotonic(m as nat, (n - 1) as nat);
            }
            return Order::Greater;
        }
        let mut i: usize = n;
        while i > 0
            invariant
                i <= n,
                self.limbs@.len() == n,
                other.limbs@.len() == n,
                forall|j: int| i <= j < n ==> self.limbs@[j] == other.limbs@[j],
            decreases i,
        {
            i -= 1;
            let x: u32 = self.limbs[i];
            let y: u32 = other.limbs[i];
            if x < y {
                proof {
                    lemma_compare_at(self.limbs@, other.limbs@, i as int);
                }
                return Order::Less;
            }
            if x > y {
                proof {
                    lemma_compare_at(other.limbs@, self.limbs@, i as int);
                }
                return Order::Greater;
            }
        }
        proof {
            lemma_equal_limbs(self.limbs@, other.limbs@);
        }
        Order::Equal
    }

    /// Whether the number is below `other`.
    pub fn less_than(&self, other: &Big) -> (b: bool)
        requires
            self.wf(),
            other.wf(),
        ensures
            b == (self@ < other@),
    {
        match self.compare(other) {
            Order::Less => true,
            _ => false,
        }
    }

    /// Whether the number is `other` or below it.
    pub fn at_most(&self, other: &Big) -> (b: bool)
        requires
            self.wf(),
            other.wf(),
        ensures
            b == (self@ <= other@),
    {
        match self.compare(other) {
            Order::Greater => false,
            _ => true,
        }
    }

    /// Subtracts `other` from the number in place.
    pub fn sub_assign(&mut self, other: &Big)
        requires
            old(self).wf(),
            other.wf(),
            old(self)@ >= other@,
        ensures
            final(self).wf(),
            final(self)@ == old(self)@ - other@,
    {
        let n = self.limbs.len();
        let m = other.limbs.len();
        proof {
            if m > n {
                lemma_value_upper(self.limbs@);
                lemma_value_lower(other.limbs@);
                lemma_base_pow_monotonic(n as nat, (m - 1) as nat);
            }
            assert(self.limbs@.subrange(0, 0) =~= Seq::<u32>::empty());
            assert(other.limbs@.subrange(0, 0) =~= Seq::<u32>::empty());
            assert(limbs_value(Seq::<u32>::empty()) == 0);
            assert(0 * base_pow(0) == 0);
        }
        let mut borrow: u32 = 0;
        let mut i: usize = 0;
        while i < n
            invariant
                i <= n,
                m <= n,
                borrow <= 1,
                self.limbs@.len() == n,
                old(self).limbs@.len() == n,
                other.limbs@.len() == m,
                forall|j: int| i <= j < n ==> self.limbs@[j] == old(self).limbs@[j],
                limbs_value(self.limbs@.subrange(0, i as int)) + limbs_value(
                    other.limbs@.subrange(0, if i < m { i as int } else { m as int }),
                ) == limbs_value(old(self).limbs@.subrange(0, i as int)) + borrow as nat
                    * base_pow(i as nat),
            decreases n - i,
        {
            let ghost before = self.limbs@;
            let a: u64 = self.limbs[i] as u64;
            let b: u64 = if i < m {
                other.limbs[i] as u64
            } else {
                0
            };
            let take: u64 = b + borrow as u64;
            let lo: u32;
            let next: u32;
            if a >= take {
                lo = (a - take) as u32;
                next = 0;
            } else {
                lo = (a + 0x1_0000_0000 - take) as u32;
                next = 1;
            }
            self.limbs.set(i, lo);
            proof {
                let p = base_pow(i as nat);
                let sp = limbs_value(before.subrange(0, i as int));
                let upto = if i < m {
                    i as int
                } else {
                    m as int
                };
                let op = limbs_value(other.limbs@.subrange(0, upto));
                let dp = limbs_value(old(self).limbs@.subrange(0, i as int));
                assert(self.limbs@.subrange(0, i as int) =~= before.subrange(0, i as int));
                lemma_prefix_step(self.limbs@, i as int);
                lemma_prefix_step(old(self).limbs@, i as int);
                if i < m {
                    lemma_prefix_step(other.limbs@, i as int);
                }
                assert(base_pow((i + 1) as nat) == base() * p);
                assert(sp + lo * p + (op + b * p) == dp + a * p + next * (base() * p))
                    by (nonlinear_arith)
                    requires
                        sp + op == dp + borrow * p,
                        lo + b + borrow == a + next * base(),
                ;
            }
            borrow = next;
            i += 1;
        }
        proof {
            assert(self.limbs@.subrange(0, n as int) =~= self.limbs@);
            assert(old(self).limbs@.subrange(0, n as int) =~= old(self).limbs@);
            assert(other.limbs@.subrange(0, m as int) =~= other.limbs@);
            lemma_value_upper(self.limbs@);
            let p = base_pow(n as nat);
            if borrow == 1 {
                assert(1 * p == p);
            } else {
                assert(0 * p == 0);
            }
        }
        self.trim();
    }

    /// Takes the whole part of the quotient by `scale` out of the number and
    /// returns it, leaving the remainder. The quotient must be below ten.
    pub fn take_digit(&mut self, scale: &Big) -> (d: u8)
        requires
            old(self).wf(),
            scale.wf(),
            old(self)@ < 10 * scale@,
        ensures
            final(self).wf(),
            d <= 9,
            final(self)@ + d * scale@ == old(self)@,
            final(self)@ < scale@,
    {
        let mut d: u8 = 0;
        proof {
            assert(0 * scale@ == 0);
        }
        while !self.less_than(scale)
            invariant
                self.wf(),
                scale.wf(),
                d <= 9,
                self@ + d * scale@ == old(self)@,
                old(self)@ < 10 * scale@,
            decreases 10 - d,
        {
            proof {
                let sc = scale@ as int;
                let cur = self@ as int;
                let dd = d as int;
                assert((dd + 1) * sc == dd * sc + sc) by (nonlinear_arith);
                assert(dd < 9) by (nonlinear_arith)
                    requires
                        (dd + 1) * sc < 10 * sc,
                        sc >= 0,
                        dd >= 0,
                ;
            }
            self.sub_assign(scale);
            d += 1;
        }
        d
    }

    /// Subtracts `d` times `other` from the number in place.
    pub fn sub_times(&mut self, other: &Big, d: u8)
        requires
            old(self).wf(),
            other.wf(),
            old(self)@ >= d * other@,
        ensures
            final(self).wf(),
            final(self)@ + d * other@ == old(self)@,
    {
        let mut i: u8 = 0;
        proof {
            assert(0 * other@ == 0);
        }
        while i < d
            invariant
                i <= d,
                self.wf(),
                other.wf(),
                self@ + i * other@ == old(self)@,
                old(self)@ >= d * other@,
            decreases d - i,
        {
            proof {
                let o = other@ as int;
                let ii = i as int;
                let dd = d as int;
                assert((ii + 1) * o == ii * o + o && dd * o >= (ii + 1) * o) by (nonlinear_arith)
                    requires
                        ii < dd,
                        o >= 0,
                ;
            }
            self.sub_assign(other);
            i += 1;
        }
    }

    /// Multiplies the number by `2^n` in place.
    pub fn mul_pow2(&mut self, n: usize)
        requires
            old(self).wf(),
        ensures
            final(self).wf(),
            final(self)@ == old(self)@ * pow2(n as nat),
    {
        let mut left: usize = n;
        proof {
            assert(pow2(0) == 1);
            assert(self@ * 1 == self@);
        }
        while left > 0
            invariant
                left <= n,
                self.wf(),
                self@ == old(self)@ * pow2((n - left) as nat),
            decreases left,
        {
            let ghost done = (n - left) as nat;
            let ghost start = old(self)@;
            if left >= 16 {
                self.mul_small(0x1_0000);
                left -= 16;
                proof {
                    lemma_pow2_adds(done, 16);
                    lemma_pow2_16();
                    assert((start * pow2(done)) * 0x1_0000 == start * (pow2(done) * 0x1_0000))
                        by (nonlinear_arith);
                }
            } else {
                self.mul_small(2);
                left -= 1;
                proof {
                    assert(pow2(done + 1) == 2 * pow2(done));
                    assert((start * pow2(done)) * 2 == start * (2 * pow2(done)))
                        by (nonlinear_arith);
                }
            }
        }
    }
}

proof fn lemma_pow2_16()
    ensures
        pow2(16) == 0x1_0000,
{
    reveal_with_fuel(pow2, 17);
}

} // verus!
