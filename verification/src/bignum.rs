//! Unbounded natural numbers as little-endian sequences of 32-bit limbs.
//!
//! Only what exact conversions between binary and decimal need: small
//! multiplication, addition, subtraction, comparison, multiplication,
//! shifting and short division.
use vstd::arithmetic::power2::{lemma_pow2_adds, lemma_pow2_pos, lemma_pow2_strictly_increases, lemma_pow2_unfold, pow2};
use vstd::prelude::*;

verus! {

/// The radix of a limb.
pub const RADIX: u64 = 0x1_0000_0000;

/// The number that little-endian limbs stand for.
pub open spec fn limbs_value(s: Seq<u32>) -> nat
    decreases s.len(),
{
    if s.len() == 0 {
        0
    } else {
        limbs_value(s.drop_last()) + s.last() as nat * pow2((32 * (s.len() - 1)) as nat)
    }
}

/// A natural number of any size.
pub struct Big {
    pub limbs: Vec<u32>,
}

impl View for Big {
    type V = nat;

    open spec fn view(&self) -> nat {
        limbs_value(self.limbs@)
    }
}

/// How two numbers compare.
#[derive(Clone, Copy, PartialEq, Eq, Structural, Debug)]
pub enum Side {
    Below,
    Same,
    Above,
}

proof fn lemma_limbs_push(s: Seq<u32>, x: u32)
    ensures
        limbs_value(s.push(x)) == limbs_value(s) + x as nat * pow2(32 * s.len()),
{
    assert(s.push(x).drop_last() =~= s);
}

proof fn lemma_limbs_take(s: Seq<u32>, i: int)
    requires
        0 <= i < s.len(),
    ensures
        limbs_value(s.take(i + 1)) == limbs_value(s.take(i)) + s[i] as nat * pow2((32 * i) as nat),
{
    assert(s.take(i + 1).drop_last() =~= s.take(i));
}

proof fn lemma_pow2_32()
    ensures
        pow2(32) == 0x1_0000_0000,
{
    vstd::arithmetic::power2::lemma2_to64();
}

proof fn lemma_pow2_next(i: nat)
    ensures
        pow2(32 * (i + 1)) == 0x1_0000_0000 * pow2(32 * i),
        pow2(32 * i) > 0,
{
    lemma_pow2_32();
    lemma_pow2_adds(32, 32 * i);
    lemma_pow2_pos(32 * i);
}

/// The limbs below position `n` stand for less than `2^(32 n)`.
proof fn lemma_limbs_bound(s: Seq<u32>)
    ensures
        limbs_value(s) < pow2(32 * s.len()),
    decreases s.len(),
{
    if s.len() == 0 {
        lemma_pow2_pos(0);
    } else {
        lemma_limbs_bound(s.drop_last());
        let n = (s.len() - 1) as nat;
        lemma_pow2_next(n);
        let p = pow2(32 * n);
        let x = s.last() as nat;
        assert(x * p <= 0xffff_ffff * p) by (nonlinear_arith)
            requires
                x <= 0xffff_ffff,
                p >= 0,
        ;
    }
}

/// Limbs split into the lowest one and the rest.
#[verifier::spinoff_prover]
proof fn lemma_limbs_first(s: Seq<u32>)
    requires
        s.len() > 0,
    ensures
        limbs_value(s) == s[0] as nat + 0x1_0000_0000 * limbs_value(s.drop_first()),
    decreases s.len(),
{
    if s.len() == 1 {
        assert(s.drop_last() =~= Seq::empty());
        assert(s.drop_first() =~= Seq::empty());
        lemma_pow2_pos(0);
        vstd::arithmetic::power2::lemma2_to64();
        assert(limbs_value(s) == s[0] as nat * pow2(0));
    } else {
        lemma_limbs_first(s.drop_last());
        assert(s.drop_last().drop_first() =~= s.drop_first().drop_last());
        let n = (s.len() - 2) as nat;
        lemma_pow2_next(n);
        let x = s.last() as nat;
        let p = pow2(32 * n);
        assert(x * (0x1_0000_0000 * p) == 0x1_0000_0000 * (x * p)) by (nonlinear_arith);
        let rest = s.drop_first();
        let a = limbs_value(rest.drop_last());
        assert(s.drop_last()[0] == s[0]);
        assert(rest.last() == s.last());
        assert(limbs_value(rest) == a + x * p);
        assert(0x1_0000_0000 * (a + x * p) == 0x1_0000_0000 * a + 0x1_0000_0000 * (x * p)) by (nonlinear_arith);
    }
}

/// High zero limbs add nothing.
proof fn lemma_limbs_split(s: Seq<u32>, i: int)
    requires
        0 <= i <= s.len(),
    ensures
        limbs_value(s) == limbs_value(s.take(i)) + pow2((32 * i) as nat) * limbs_value(s.skip(i)),
    decreases s.len() - i,
{
    if i == s.len() {
        assert(s.take(i) =~= s);
        assert(s.skip(i) =~= Seq::empty());
        assert(limbs_value(s.skip(i)) == 0);
        assert(pow2((32 * i) as nat) * 0 == 0) by (nonlinear_arith);
    } else {
        lemma_limbs_split(s, i + 1);
        lemma_limbs_take(s, i);
        lemma_limbs_first(s.skip(i));
        assert(s.skip(i).drop_first() =~= s.skip(i + 1));
        lemma_pow2_next(i as nat);
        let p = pow2((32 * i) as nat);
        let v = limbs_value(s.skip(i + 1));
        let x = s[i] as nat;
        assert((0x1_0000_0000 * p) * v + x * p == p * (x + 0x1_0000_0000 * v)) by (nonlinear_arith);
    }
}

impl Big {
    pub fn zero() -> (r: Big)
        ensures
            r@ == 0,
    {
        Big { limbs: Vec::new() }
    }

    pub fn from_u64(x: u64) -> (r: Big)
        ensures
            r@ == x as nat,
    {
        let mut limbs: Vec<u32> = Vec::new();
        let lo: u32 = (x % RADIX) as u32;
        let hi: u32 = (x / RADIX) as u32;
        limbs.push(lo);
        limbs.push(hi);
        proof {
            let e = Seq::<u32>::empty();
            lemma_limbs_push(e, lo);
            lemma_limbs_push(e.push(lo), hi);
            lemma_pow2_32();
            vstd::arithmetic::power2::lemma2_to64();
            assert(limbs@ =~= e.push(lo).push(hi));
            assert(limbs_value(e) == 0);
            assert(lo as nat * pow2(0) == lo);
            assert(hi as nat * pow2(32) == hi as nat * 0x1_0000_0000);
        }
        Big { limbs }
    }

    pub fn dup(&self) -> (r: Big)
        ensures
            r@ == self@,
    {
        let mut limbs: Vec<u32> = Vec::new();
        let mut i: usize = 0;
        while i < self.limbs.len()
            invariant
                i <= self.limbs.len(),
                limbs@ =~= self.limbs@.take(i as int),
            decreases self.limbs.len() - i,
        {
            limbs.push(self.limbs[i]);
            i = i + 1;
        }
        assert(limbs@ =~= self.limbs@);
        Big { limbs }
    }

    pub fn is_zero(&self) -> (r: bool)
        ensures
            r == (self@ == 0),
    {
        let mut i: usize = 0;
        while i < self.limbs.len()
            invariant
                i <= self.limbs.len(),
                limbs_value(self.limbs@.take(i as int)) == 0,
            decreases self.limbs.len() - i,
        {
            proof {
                lemma_limbs_take(self.limbs@, i as int);
            }
            if self.limbs[i] != 0 {
                proof {
                    lemma_limbs_split(self.limbs@, i as int + 1);
                    lemma_pow2_pos((32 * i) as nat);
                    let x = self.limbs@[i as int] as nat;
                    let p = pow2((32 * i) as nat);
                    assert(x * p > 0) by (nonlinear_arith)
                        requires
                            x > 0,
                            p > 0,
                    ;
                    let a = pow2((32 * (i + 1)) as nat);
                    let b = limbs_value(self.limbs@.skip(i + 1));
                    assert(a * b >= 0) by (nonlinear_arith)
                        requires
                            a >= 0,
                            b >= 0,
                    ;
                }
                return false;
            }
            proof {
                let p = pow2((32 * i) as nat);
                assert(0 * p == 0);
            }
            i = i + 1;
        }
        assert(self.limbs@.take(i as int) =~= self.limbs@);
        true
    }

    /// `self * m + c`.
    pub fn mul_add_small(&self, m: u32, c: u32) -> (r: Big)
        ensures
            r@ == self@ * m as nat + c as nat,
    {
        let mut out: Vec<u32> = Vec::new();
        let mut carry: u64 = c as u64;
        let mut i: usize = 0;
        proof {
            vstd::arithmetic::power2::lemma2_to64();
            assert(self.limbs@.take(0) =~= Seq::empty());
            assert(limbs_value(self.limbs@.take(0)) == 0);
            assert(carry * pow2(0) == carry);
        }
        while i < self.limbs.len()
            invariant
                i <= self.limbs.len(),
                out@.len() == i,
                carry < RADIX,
                limbs_value(out@) + carry as nat * pow2((32 * i) as nat) == limbs_value(
                    self.limbs@.take(i as int),
                ) * m as nat + c as nat,
            decreases self.limbs.len() - i,
        {
            let x: u32 = self.limbs[i];
            assert(x as u64 * m as u64 + carry <= 0xffff_ffff * 0xffff_ffff + 0xffff_ffff)
                by (nonlinear_arith)
                requires
                    x <= 0xffff_ffffu32,
                    m <= 0xffff_ffffu32,
                    carry < 0x1_0000_0000u64,
            ;
            assert(x as u64 * m as u64 <= 0xffff_ffff * 0xffff_ffff) by (nonlinear_arith)
                requires
                    x <= 0xffff_ffffu32,
                    m <= 0xffff_ffffu32,
            ;
            let t: u64 = x as u64 * m as u64 + carry;
            let lo: u32 = (t % RADIX) as u32;
            let hi: u64 = t / RADIX;
            proof {
                lemma_limbs_push(out@, lo);
                lemma_limbs_take(self.limbs@, i as int);
                lemma_pow2_next(i as nat);
                let p = pow2((32 * i) as nat);
                let v = limbs_value(self.limbs@.take(i as int));
                let o = limbs_value(out@);
                assert(t == lo + hi * 0x1_0000_0000);
                assert(o + lo as nat * p + hi as nat * (0x1_0000_0000 * p) == (v + x as nat * p) * m as nat
                    + c as nat) by (nonlinear_arith)
                    requires
                        o + carry as nat * p == v * m as nat + c as nat,
                        x as nat * m as nat + carry as nat == lo as nat + hi as nat * 0x1_0000_0000,
                ;
            }
            out.push(lo);
            carry = hi;
            i = i + 1;
        }
        proof {
            assert(self.limbs@.take(i as int) =~= self.limbs@);
            lemma_limbs_push(out@, carry as u32);
        }
        out.push(carry as u32);
        Big { limbs: out }
    }

    /// `self + other`.
    pub fn plus(&self, other: &Big) -> (r: Big)
        ensures
            r@ == self@ + other@,
    {
        let n: usize = if self.limbs.len() > other.limbs.len() {
            self.limbs.len()
        } else {
            other.limbs.len()
        };
        let mut out: Vec<u32> = Vec::new();
        let mut carry: u64 = 0;
        let mut i: usize = 0;
        proof {
            assert(self.limbs@.take(0) =~= Seq::empty());
            assert(other.limbs@.take(0) =~= Seq::empty());
            assert(0 * pow2(0) == 0);
        }
        while i < n
            invariant
                i <= n,
                n >= self.limbs.len(),
                n >= other.limbs.len(),
                out@.len() == i,
                carry <= 1,
                limbs_value(out@) + carry as nat * pow2((32 * i) as nat) == limbs_value(
                    low(self.limbs@, i as int),
                ) + limbs_value(low(other.limbs@, i as int)),
            decreases n - i,
        {
            let x: u64 = if i < self.limbs.len() {
                self.limbs[i] as u64
            } else {
                0
            };
            let y: u64 = if i < other.limbs.len() {
                other.limbs[i] as u64
            } else {
                0
            };
            let t: u64 = x + y + carry;
            let lo: u32 = (t % RADIX) as u32;
            let hi: u64 = t / RADIX;
            proof {
                lemma_low_step(self.limbs@, i as int);
                lemma_low_step(other.limbs@, i as int);
                lemma_limbs_push(out@, lo);
                lemma_pow2_next(i as nat);
                let p = pow2((32 * i) as nat);
                let v = limbs_value(low(self.limbs@, i as int));
                let w = limbs_value(low(other.limbs@, i as int));
                let o = limbs_value(out@);
                assert(o + lo as nat * p + hi as nat * (0x1_0000_0000 * p) == (v + x as nat * p) + (w
                    + y as nat * p)) by (nonlinear_arith)
                    requires
                        o + carry as nat * p == v + w,
                        x as nat + y as nat + carry as nat == lo as nat + hi as nat * 0x1_0000_0000,
                ;
            }
            out.push(lo);
            carry = hi;
            i = i + 1;
        }
        proof {
            assert(low(self.limbs@, i as int) =~= self.limbs@);
            assert(low(other.limbs@, i as int) =~= other.limbs@);
            lemma_limbs_push(out@, carry as u32);
        }
        out.push(carry as u32);
        Big { limbs: out }
    }

    /// `self - other`, for a subtrahend that is not larger.
    pub fn minus(&self, other: &Big) -> (r: Big)
        requires
            self@ >= other@,
        ensures
            r@ == self@ - other@,
    {
        let n: usize = if self.limbs.len() > other.limbs.len() {
            self.limbs.len()
        } else {
            other.limbs.len()
        };
        let mut out: Vec<u32> = Vec::new();
        let mut borrow: u64 = 0;
        let mut i: usize = 0;
        proof {
            assert(self.limbs@.take(0) =~= Seq::empty());
            assert(other.limbs@.take(0) =~= Seq::empty());
            assert(0 * pow2(0) == 0);
        }
        while i < n
            invariant
                i <= n,
                n >= self.limbs.len(),
                n >= other.limbs.len(),
                out@.len() == i,
                borrow <= 1,
                limbs_value(out@) + limbs_value(low(other.limbs@, i as int)) == limbs_value(
                    low(self.limbs@, i as int),
                ) + borrow as nat * pow2((32 * i) as nat),
            decreases n - i,
        {
            let x: u64 = if i < self.limbs.len() {
                self.limbs[i] as u64
            } else {
                0
            };
            let y: u64 = if i < other.limbs.len() {
                other.limbs[i] as u64
            } else {
                0
            };
            let need: bool = x < y + borrow;
            let t: u64 = if need {
                x + RADIX - y - borrow
            } else {
                x - y - borrow
            };
            let lo: u32 = t as u32;
            let hi: u64 = if need {
                1
            } else {
                0
            };
            proof {
                lemma_low_step(self.limbs@, i as int);
                lemma_low_step(other.limbs@, i as int);
                lemma_limbs_push(out@, lo);
                lemma_pow2_next(i as nat);
                let p = pow2((32 * i) as nat);
                let v = limbs_value(low(self.limbs@, i as int));
                let w = limbs_value(low(other.limbs@, i as int));
                let o = limbs_value(out@);
                assert(o + lo as nat * p + (w + y as nat * p) == (v + x as nat * p) + hi as nat * (0x1_0000_0000
                    * p)) by (nonlinear_arith)
                    requires
                        o + w == v + borrow as nat * p,
                        x as nat + hi as nat * 0x1_0000_0000 == lo as nat + y as nat + borrow as nat,
                ;
            }
            out.push(lo);
            borrow = hi;
            i = i + 1;
        }
        proof {
            assert(low(self.limbs@, i as int) =~= self.limbs@);
            assert(low(other.limbs@, i as int) =~= other.limbs@);
            lemma_limbs_bound(out@);
            lemma_pow2_pos((32 * i) as nat);
        }
        Big { limbs: out }
    }

    /// How `self` compares with `other`.
    pub fn compare(&self, other: &Big) -> (r: Side)
        ensures
            r == side_of(self@ as int, other@ as int),
    {
        let n: usize = if self.limbs.len() > other.limbs.len() {
            self.limbs.len()
        } else {
            other.limbs.len()
        };
        let mut i: usize = n;
        proof {
            assert(low(self.limbs@, n as int) =~= self.limbs@);
            assert(low(other.limbs@, n as int) =~= other.limbs@);
        }
        while i > 0
            invariant
                i <= n,
                self@ - limbs_value(low(self.limbs@, i as int)) == other@ - limbs_value(
                    low(other.limbs@, i as int),
                ),
            decreases i,
        {
            i = i - 1;
            let x: u32 = if i < self.limbs.len() {
                self.limbs[i]
            } else {
                0
            };
            let y: u32 = if i < other.limbs.len() {
                other.limbs[i]
            } else {
                0
            };
            proof {
                lemma_low_step(self.limbs@, i as int);
                lemma_low_step(other.limbs@, i as int);
                lemma_low_bound(self.limbs@, i as int);
                lemma_low_bound(other.limbs@, i as int);
                let p = pow2((32 * i) as nat);
                if x < y {
                    assert(x as nat * p + p <= y as nat * p) by (nonlinear_arith)
                        requires
                            x as nat + 1 <= y as nat,
                            p >= 0,
                    ;
                }
                if y < x {
                    assert(y as nat * p + p <= x as nat * p) by (nonlinear_arith)
                        requires
                            y as nat + 1 <= x as nat,
                            p >= 0,
                    ;
                }
            }
            if x < y {
                return Side::Below;
            }
            if x > y {
                return Side::Above;
            }
        }
        Side::Same
    }

    /// `self * 2^(32 k)`.
    fn shift_limbs(&self, k: usize) -> (r: Big)
        ensures
            r@ == self@ * pow2((32 * k) as nat),
    {
        let mut limbs: Vec<u32> = Vec::new();
        let mut i: usize = 0;
        while i < k
            invariant
                i <= k,
                limbs@.len() == i,
                limbs_value(limbs@) == 0,
            decreases k - i,
        {
            proof {
                lemma_limbs_push(limbs@, 0);
                assert(0 * pow2((32 * i) as nat) == 0);
            }
            limbs.push(0);
            i = i + 1;
        }
        let mut j: usize = 0;
        assert(limbs@.take(k as int) =~= limbs@);
        while j < self.limbs.len()
            invariant
                j <= self.limbs.len(),
                limbs@.len() == k + j,
                limbs@.take(k as int).len() == k,
                limbs_value(limbs@.take(k as int)) == 0,
                limbs@.skip(k as int) =~= self.limbs@.take(j as int),
            decreases self.limbs.len() - j,
        {
            let ghost before = limbs@;
            limbs.push(self.limbs[j]);
            proof {
                assert(limbs@.take(k as int) =~= before.take(k as int));
            }
            j = j + 1;
        }
        proof {
            lemma_limbs_split(limbs@, k as int);
            assert(limbs@.skip(k as int) =~= self.limbs@);
            let p = pow2((32 * k) as nat);
            let v = limbs_value(self.limbs@);
            assert(p * v == v * p) by (nonlinear_arith);
        }
        Big { limbs }
    }

    /// `self * 2^k`.
    pub fn shift(&self, k: u32) -> (r: Big)
        ensures
            r@ == self@ * pow2(k as nat),
    {
        let words: u32 = k / 32;
        let rest: u32 = k % 32;
        let moved = self.shift_limbs(words as usize);
        let f: u32 = two_to(rest);
        let r = moved.mul_add_small(f, 0);
        proof {
            lemma_pow2_adds((32 * words) as nat, rest as nat);
            let a = self@;
            let b = pow2((32 * words) as nat);
            let c = pow2(rest as nat);
            assert((a * b) * c == a * (b * c)) by (nonlinear_arith);
        }
        r
    }

    /// `self * other`.
    pub fn times(&self, other: &Big) -> (r: Big)
        ensures
            r@ == self@ * other@,
    {
        let mut acc = Big::zero();
        let mut i: usize = other.limbs.len();
        proof {
            assert(other.limbs@.skip(i as int) =~= Seq::empty());
            assert(self@ * 0 == 0);
        }
        while i > 0
            invariant
                i <= other.limbs.len(),
                acc@ == self@ * limbs_value(other.limbs@.skip(i as int)),
            decreases i,
        {
            i = i - 1;
            let x: u32 = other.limbs[i];
            let part = self.mul_add_small(x, 0);
            let up = acc.shift_limbs(1);
            proof {
                lemma_limbs_first(other.limbs@.skip(i as int));
                assert(other.limbs@.skip(i as int).drop_first() =~= other.limbs@.skip(i + 1));
                lemma_pow2_32();
                let a = self@;
                let v = limbs_value(other.limbs@.skip(i + 1));
                assert((a * v) * 0x1_0000_0000 + a * x as nat == a * (x as nat + 0x1_0000_0000 * v))
                    by (nonlinear_arith);
            }
            acc = up.plus(&part);
        }
        assert(other.limbs@.skip(0) =~= other.limbs@);
        acc
    }

    /// The number itself, where it fits.
    pub fn to_u64(&self) -> (r: u64)
        requires
            self@ <= u64::MAX,
        ensures
            r as nat == self@,
    {
        let mut r: u64 = 0;
        let mut i: usize = self.limbs.len();
        proof {
            assert(self.limbs@.skip(i as int) =~= Seq::empty());
        }
        while i > 0
            invariant
                i <= self.limbs.len(),
                self@ <= u64::MAX,
                r as nat == limbs_value(self.limbs@.skip(i as int)),
            decreases i,
        {
            i = i - 1;
            proof {
                lemma_limbs_first(self.limbs@.skip(i as int));
                assert(self.limbs@.skip(i as int).drop_first() =~= self.limbs@.skip(i + 1));
                lemma_limbs_split(self.limbs@, i as int);
                lemma_pow2_pos((32 * i) as nat);
                let v = limbs_value(self.limbs@.skip(i as int));
                let p = pow2((32 * i) as nat);
                assert(v <= p * v) by (nonlinear_arith)
                    requires
                        p >= 1,
                        v >= 0,
                ;
            }
            r = r * RADIX + self.limbs[i] as u64;
        }
        assert(self.limbs@.skip(0) =~= self.limbs@);
        r
    }

    /// Quotient and remainder.
    pub fn div_mod(&self, d: &Big) -> (r: (Big, Big))
        requires
            d@ > 0,
        ensures
            r.0@ == self@ / d@,
            r.1@ == self@ % d@,
    {
        // The divisor times each power of two up to the first that exceeds `self`.
        let mut steps: Vec<Big> = Vec::new();
        let mut cur = d.dup();
        proof {
            vstd::arithmetic::power2::lemma2_to64();
            assert(d@ * pow2(0) == d@);
        }
        while cur.compare(self) != Side::Above
            invariant
                d@ > 0,
                cur@ == d@ * pow2(steps@.len()),
                forall|i: int| 0 <= i < steps@.len() ==> (#[trigger] steps@[i])@ == d@ * pow2(i as nat),
            decreases (if cur@ <= self@ { self@ + 1 - cur@ } else { 0 }),
        {
            let next = cur.mul_add_small(2, 0);
            proof {
                lemma_pow2_unfold((steps@.len() + 1) as nat);
                let p = pow2(steps@.len());
                let x = d@;
                lemma_pow2_pos(steps@.len());
                assert((x * p) * 2 == x * (2 * p)) by (nonlinear_arith);
                assert(x * p > 0) by (nonlinear_arith)
                    requires
                        x > 0,
                        p > 0,
                ;
            }
            steps.push(cur);
            cur = next;
        }
        let mut q = Big::zero();
        let mut r = self.dup();
        let mut i: usize = steps.len();
        while i > 0
            invariant
                i <= steps.len(),
                d@ > 0,
                forall|i: int| 0 <= i < steps@.len() ==> (#[trigger] steps@[i])@ == d@ * pow2(i as nat),
                self@ == q@ * (d@ * pow2(i as nat)) + r@,
                r@ < d@ * pow2(i as nat),
            decreases i,
        {
            i = i - 1;
            let twice = q.mul_add_small(2, 0);
            let ghost x = d@;
            let ghost p = pow2(i as nat);
            let ghost q0 = q@;
            let ghost r0 = r@;
            proof {
                lemma_pow2_unfold((i + 1) as nat);
                assert(q0 * (x * (2 * p)) == (2 * q0) * (x * p)) by (nonlinear_arith);
                assert(x * (2 * p) == 2 * (x * p)) by (nonlinear_arith);
            }
            if r.compare(&steps[i]) != Side::Below {
                r = r.minus(&steps[i]);
                q = twice.plus(&Big::from_u64(1));
                proof {
                    assert((2 * q0 + 1) * (x * p) == (2 * q0) * (x * p) + x * p) by (nonlinear_arith);
                }
            } else {
                q = twice;
            }
        }
        proof {
            vstd::arithmetic::power2::lemma2_to64();
            assert(d@ * pow2(0) == d@);
            vstd::arithmetic::div_mod::lemma_fundamental_div_mod_converse(
                self@ as int,
                d@ as int,
                q@ as int,
                r@ as int,
            );
        }
        (q, r)
    }

    pub fn modulo(&self, d: &Big) -> (r: Big)
        requires
            d@ > 0,
        ensures
            r@ == self@ % d@,
    {
        self.div_mod(d).1
    }

    /// Quotient and remainder on division by a small number.
    pub fn div_small(&self, d: u32) -> (r: (Big, u32))
        requires
            d > 0,
        ensures
            self@ == r.0@ * d as nat + r.1 as nat,
            r.1 < d,
    {
        let mut out: Vec<u32> = Vec::new();
        let mut rem: u64 = 0;
        let mut i: usize = self.limbs.len();
        proof {
            assert(self.limbs@.skip(i as int) =~= Seq::empty());
            assert(out@.reverse() =~= Seq::empty());
            assert(limbs_value(Seq::<u32>::empty()) == 0);
        }
        while i > 0
            invariant
                i <= self.limbs.len(),
                d > 0,
                rem < d,
                out@.len() == self.limbs.len() - i,
                limbs_value(self.limbs@.skip(i as int)) == limbs_value(out@.reverse()) * d as nat
                    + rem as nat,
            decreases i,
        {
            i = i - 1;
            let x: u32 = self.limbs[i];
            assert(rem * 0x1_0000_0000 + x <= 0xffff_ffff * 0x1_0000_0000 + 0xffff_ffff) by (nonlinear_arith)
                requires
                    rem < d as u64,
                    d <= 0xffff_ffffu32,
                    x <= 0xffff_ffffu32,
            ;
            let t: u64 = rem * RADIX + x as u64;
            let q: u64 = t / d as u64;
            let m: u64 = t % d as u64;
            proof {
                vstd::arithmetic::div_mod::lemma_fundamental_div_mod(t as int, d as int);
                vstd::arithmetic::div_mod::lemma_mod_bound(t as int, d as int);
                assert(q < 0x1_0000_0000) by (nonlinear_arith)
                    requires
                        t == d * q + m,
                        m >= 0,
                        t < d * 0x1_0000_0000,
                        d > 0,
                ;
                lemma_limbs_first(self.limbs@.skip(i as int));
                assert(self.limbs@.skip(i as int).drop_first() =~= self.limbs@.skip(i + 1));
                let ghost o = out@;
                let n = o.push(q as u32);
                lemma_limbs_first(n.reverse());
                assert(n.reverse().drop_first() =~= o.reverse());
                assert(n.reverse()[0] == q as u32);
                let v = limbs_value(o.reverse());
                assert(x as nat + 0x1_0000_0000 * (v * d as nat + rem as nat) == (q as nat
                    + 0x1_0000_0000 * v) * d as nat + m as nat) by (nonlinear_arith)
                    requires
                        rem as nat * 0x1_0000_0000 + x as nat == d as nat * q as nat + m as nat,
                ;
            }
            out.push(q as u32);
            rem = m;
        }
        let mut limbs: Vec<u32> = Vec::new();
        let mut j: usize = out.len();
        while j > 0
            invariant
                j <= out.len(),
                limbs@ =~= out@.reverse().take(out.len() - j),
            decreases j,
        {
            j = j - 1;
            limbs.push(out[j]);
        }
        proof {
            assert(limbs@ =~= out@.reverse());
            assert(self.limbs@.skip(0) =~= self.limbs@);
        }
        (Big { limbs }, rem as u32)
    }
}

/// The limbs below position `i`.
spec fn low(s: Seq<u32>, i: int) -> Seq<u32> {
    if i < s.len() {
        s.take(i)
    } else {
        s
    }
}

proof fn lemma_low_step(s: Seq<u32>, i: int)
    requires
        0 <= i,
    ensures
        limbs_value(low(s, i + 1)) == limbs_value(low(s, i)) + (if i < s.len() {
            s[i] as nat
        } else {
            0
        }) * pow2((32 * i) as nat),
{
    if i < s.len() {
        lemma_limbs_take(s, i);
        if i + 1 == s.len() {
            assert(s.take(i + 1) =~= s);
        }
    } else {
        assert(0 * pow2((32 * i) as nat) == 0);
    }
}

proof fn lemma_low_bound(s: Seq<u32>, i: int)
    requires
        0 <= i,
    ensures
        limbs_value(low(s, i)) < pow2((32 * i) as nat),
{
    lemma_limbs_bound(low(s, i));
    let n = low(s, i).len();
    if n < i {
        lemma_pow2_strictly_increases(32 * n, (32 * i) as nat);
    }
}

/// Which side of `b` the number `a` lies on.
pub open spec fn side_of(a: int, b: int) -> Side {
    if a < b {
        Side::Below
    } else if a == b {
        Side::Same
    } else {
        Side::Above
    }
}

/// `2^k` for a shift within one limb.
fn two_to(k: u32) -> (r: u32)
    requires
        k < 32,
    ensures
        r as nat == pow2(k as nat),
{
    let mut r: u32 = 1;
    let mut i: u32 = 0;
    proof {
        vstd::arithmetic::power2::lemma2_to64();
    }
    while i < k
        invariant
            i <= k < 32,
            r as nat == pow2(i as nat),
        decreases k - i,
    {
        proof {
            lemma_pow2_unfold((i + 1) as nat);
            lemma_pow2_strictly_increases((i + 1) as nat, 32);
            lemma_pow2_32();
        }
        r = r * 2;
        i = i + 1;
    }
    r
}

} // verus!
