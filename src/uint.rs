//! Unsigned 256-bit integers, held as four 64-bit limbs.

use vstd::prelude::*;
use vstd::arithmetic::div_mod::lemma_fundamental_div_mod_converse;

verus! {

/// The limb base, 2^64.
pub open spec fn base() -> int {
    0x1_0000_0000_0000_0000int
}

/// An unsigned 256-bit integer; `w0` is the least significant limb.
#[derive(Clone, Copy, Debug, PartialEq, Eq, Structural)]
pub struct U256 {
    pub w0: u64,
    pub w1: u64,
    pub w2: u64,
    pub w3: u64,
}

/// A 320-bit intermediate, wide enough for a 256-bit value times a 64-bit one.
#[derive(Clone, Copy, Debug, PartialEq, Eq, Structural)]
pub struct Wide {
    pub w0: u64,
    pub w1: u64,
    pub w2: u64,
    pub w3: u64,
    pub w4: u64,
}

impl U256 {
    /// The number this value stands for.
    pub open spec fn value(self) -> nat {
        (self.w0 + base() * (self.w1 + base() * (self.w2 + base() * self.w3))) as nat
    }

    pub open spec fn widen(self) -> Wide {
        Wide { w0: self.w0, w1: self.w1, w2: self.w2, w3: self.w3, w4: 0 }
    }

    pub fn zero() -> (r: U256)
        ensures
            r.value() == 0,
            r == (U256 { w0: 0, w1: 0, w2: 0, w3: 0 }),
    {
        U256 { w0: 0, w1: 0, w2: 0, w3: 0 }
    }

    pub fn from_u64(x: u64) -> (r: U256)
        ensures
            r.value() == x,
    {
        U256 { w0: x, w1: 0, w2: 0, w3: 0 }
    }

    /// `self < other` as numbers.
    pub fn lt(&self, other: &U256) -> (r: bool)
        ensures
            r == (self.value() < other.value()),
    {
        proof {
            lemma_widen_value(*self);
            lemma_widen_value(*other);
        }
        wide_lt(&self.widen_exec(), &other.widen_exec())
    }

    pub fn widen_exec(&self) -> (r: Wide)
        ensures
            r == self.widen(),
    {
        Wide { w0: self.w0, w1: self.w1, w2: self.w2, w3: self.w3, w4: 0 }
    }
}

impl Wide {
    pub open spec fn value(self) -> nat {
        (self.w0 + base() * (self.w1 + base() * (self.w2 + base() * (self.w3 + base()
            * self.w4)))) as nat
    }

    pub open spec fn narrow(self) -> U256 {
        U256 { w0: self.w0, w1: self.w1, w2: self.w2, w3: self.w3 }
    }
}

pub proof fn lemma_widen_value(x: U256)
    ensures
        x.widen().value() == x.value(),
        x.value() < base() * base() * base() * base(),
{
    lemma_horner_upper(x.w2 as int, x.w3 as int);
    let a = x.w2 + base() * x.w3;
    lemma_horner_upper_big(x.w1 as int, a, base() * base());
    let b = x.w1 + base() * a;
    lemma_horner_upper_big(x.w0 as int, b, base() * base() * base());
}

/// A wide value below 2^256 has a zero top limb and narrows losslessly.
pub proof fn lemma_narrow_value(x: Wide)
    requires
        x.value() < base() * base() * base() * base(),
    ensures
        x.w4 == 0,
        x.narrow().value() == x.value(),
{
    let a = x.w3 + base() * x.w4;
    let b = x.w2 + base() * a;
    let c = x.w1 + base() * b;
    assert(x.value() == x.w0 + base() * c);
    if x.w4 > 0 {
        assert(a >= base()) by (nonlinear_arith)
            requires a == x.w3 + base() * x.w4, x.w4 > 0, x.w3 >= 0;
        assert(b >= base() * base()) by (nonlinear_arith)
            requires b == x.w2 + base() * a, a >= base(), x.w2 >= 0;
        assert(c >= base() * base() * base()) by (nonlinear_arith)
            requires c == x.w1 + base() * b, b >= base() * base(), x.w1 >= 0;
        assert(x.w0 + base() * c >= base() * base() * base() * base()) by (nonlinear_arith)
            requires c >= base() * base() * base(), x.w0 >= 0;
    }
}

proof fn lemma_horner_upper(lo: int, hi: int)
    requires
        0 <= lo < base(),
        0 <= hi < base(),
    ensures
        0 <= lo + base() * hi < base() * base(),
{
    assert(0 <= lo + base() * hi < base() * base()) by (nonlinear_arith)
        requires 0 <= lo < base(), 0 <= hi < base();
}

proof fn lemma_horner_upper_big(lo: int, hi: int, bound: int)
    requires
        0 <= lo < base(),
        0 <= hi < bound,
    ensures
        0 <= lo + base() * hi < base() * bound,
{
    assert(0 <= lo + base() * hi < base() * bound) by (nonlinear_arith)
        requires 0 <= lo < base(), 0 <= hi < bound;
}

/// Comparing `lo + B * hi` forms: the high part decides unless it is equal.
proof fn lemma_horner_lt(a: int, b: int, x: int, y: int)
    requires
        0 <= a < base(),
        0 <= b < base(),
        0 <= x,
        0 <= y,
    ensures
        (a + base() * x < b + base() * y) == (x < y || (x == y && a < b)),
{
    if x < y {
        assert(a + base() * x < b + base() * y) by (nonlinear_arith)
            requires 0 <= a < base(), 0 <= b, x < y;
    } else if y < x {
        assert(b + base() * y < a + base() * x) by (nonlinear_arith)
            requires 0 <= b < base(), 0 <= a, y < x;
    }
}

/// `a < b` on wide values, limb by limb from the top.
pub fn wide_lt(a: &Wide, b: &Wide) -> (r: bool)
    ensures
        r == (a.value() < b.value()),
{
    let ghost a3 = a.w3 + base() * a.w4;
    let ghost b3 = b.w3 + base() * b.w4;
    let ghost a2 = a.w2 + base() * a3;
    let ghost b2 = b.w2 + base() * b3;
    let ghost a1 = a.w1 + base() * a2;
    let ghost b1 = b.w1 + base() * b2;
    proof {
        lemma_horner_lt(a.w3 as int, b.w3 as int, a.w4 as int, b.w4 as int);
        assert(a3 >= 0 && b3 >= 0) by (nonlinear_arith)
            requires a3 == a.w3 + base() * a.w4, b3 == b.w3 + base() * b.w4;
        lemma_horner_lt(a.w2 as int, b.w2 as int, a3, b3);
        assert(a2 >= 0 && b2 >= 0) by (nonlinear_arith)
            requires a2 == a.w2 + base() * a3, b2 == b.w2 + base() * b3, a3 >= 0, b3 >= 0;
        lemma_horner_lt(a.w1 as int, b.w1 as int, a2, b2);
        assert(a1 >= 0 && b1 >= 0) by (nonlinear_arith)
            requires a1 == a.w1 + base() * a2, b1 == b.w1 + base() * b2, a2 >= 0, b2 >= 0;
        lemma_horner_lt(a.w0 as int, b.w0 as int, a1, b1);
        assert((a3 == b3) == (a.w4 == b.w4 && a.w3 == b.w3)) by (nonlinear_arith)
            requires a3 == a.w3 + base() * a.w4, b3 == b.w3 + base() * b.w4,
                0 <= a.w3 < base(), 0 <= b.w3 < base();
        assert((a2 == b2) == (a3 == b3 && a.w2 == b.w2)) by (nonlinear_arith)
            requires a2 == a.w2 + base() * a3, b2 == b.w2 + base() * b3,
                0 <= a.w2 < base(), 0 <= b.w2 < base();
        assert((a1 == b1) == (a2 == b2 && a.w1 == b.w1)) by (nonlinear_arith)
            requires a1 == a.w1 + base() * a2, b1 == b.w1 + base() * b2,
                0 <= a.w1 < base(), 0 <= b.w1 < base();
    }
    if a.w4 != b.w4 {
        return a.w4 < b.w4;
    }
    if a.w3 != b.w3 {
        return a.w3 < b.w3;
    }
    if a.w2 != b.w2 {
        return a.w2 < b.w2;
    }
    if a.w1 != b.w1 {
        return a.w1 < b.w1;
    }
    a.w0 < b.w0
}


/// One step of long multiplication: `x * a + carry` split into a limb and a carry.
fn mul_step(x: u64, a: u64, carry: u64) -> (r: (u64, u64))
    ensures
        r.0 + base() * r.1 == x * a + carry,
{
    proof {
        assert(x * a + carry < base() * base()) by (nonlinear_arith)
            requires 0 <= x < base(), 0 <= a < base(), 0 <= carry < base();
        assert(0 <= x * a) by (nonlinear_arith)
            requires 0 <= x, 0 <= a;
    }
    let p: u128 = (x as u128) * (a as u128) + (carry as u128);
    let lo: u128 = p % 0x1_0000_0000_0000_0000u128;
    let hi: u128 = p / 0x1_0000_0000_0000_0000u128;
    proof {
        assert(hi < base()) by (nonlinear_arith)
            requires hi as int == (p as int) / base(), p < base() * base(), p >= 0;
    }
    (lo as u64, hi as u64)
}

/// `t * a`, exactly.
pub fn mul_small(t: &U256, a: u64) -> (r: Wide)
    ensures
        r.value() == t.value() * a,
{
    let (r0, c0) = mul_step(t.w0, a, 0);
    let (r1, c1) = mul_step(t.w1, a, c0);
    let (r2, c2) = mul_step(t.w2, a, c1);
    let (r3, c3) = mul_step(t.w3, a, c2);
    let r = Wide { w0: r0, w1: r1, w2: r2, w3: r3, w4: c3 };
    proof {
        let b = base();
        let (x0, x1, x2, x3) = (t.w0 as int, t.w1 as int, t.w2 as int, t.w3 as int);
        let ai = a as int;
        assert((x0 + b * (x1 + b * (x2 + b * x3))) * ai
            == x0 * ai + b * (x1 * ai + b * (x2 * ai + b * (x3 * ai)))) by (nonlinear_arith);
        assert(r3 + b * c3 == x3 * ai + c2);
        assert(r2 + b * (r3 + b * c3) == x2 * ai + b * (x3 * ai) + c1) by (nonlinear_arith)
            requires r3 + b * c3 == x3 * ai + c2, r2 + b * c2 == x2 * ai + c1;
        assert(r1 + b * (r2 + b * (r3 + b * c3)) == x1 * ai + b * (x2 * ai + b * (x3 * ai)) + c0)
            by (nonlinear_arith)
            requires r2 + b * (r3 + b * c3) == x2 * ai + b * (x3 * ai) + c1,
                r1 + b * c1 == x1 * ai + c0;
        assert(r0 + b * (r1 + b * (r2 + b * (r3 + b * c3)))
            == x0 * ai + b * (x1 * ai + b * (x2 * ai + b * (x3 * ai)))) by (nonlinear_arith)
            requires r1 + b * (r2 + b * (r3 + b * c3)) == x1 * ai + b * (x2 * ai + b * (x3 * ai)) + c0,
                r0 + b * c0 == x0 * ai + 0;
    }
    r
}

/// One step of long division: `(rem * B + x) / d` and its remainder.
fn div_step(rem: u64, x: u64, d: u64) -> (r: (u64, u64))
    requires
        d > 0,
        rem < d,
    ensures
        r.0 * d + r.1 == rem * base() + x,
        r.1 < d,
{
    proof {
        assert(rem * base() + x < d * base()) by (nonlinear_arith)
            requires 0 <= rem < d, 0 <= x < base();
        assert(0 <= rem * base()) by (nonlinear_arith)
            requires 0 <= rem;
        assert(d * base() <= base() * base()) by (nonlinear_arith)
            requires 0 < d < base();
    }
    let n: u128 = (rem as u128) * 0x1_0000_0000_0000_0000u128 + (x as u128);
    let q: u128 = n / (d as u128);
    let m: u128 = n % (d as u128);
    proof {
        assert(q < base() && q * d + m == n && m < d) by (nonlinear_arith)
            requires q as int == (n as int) / (d as int), m as int == (n as int) % (d as int), n < d * base(), n >= 0, d > 0;
    }
    (q as u64, m as u64)
}

/// `x / d`, rounded down.
pub fn div_small(x: &Wide, d: u64) -> (r: Wide)
    requires
        d > 0,
    ensures
        r.value() == x.value() / (d as nat),
{
    let (q4, m4) = div_step(0, x.w4, d);
    let (q3, m3) = div_step(m4, x.w3, d);
    let (q2, m2) = div_step(m3, x.w2, d);
    let (q1, m1) = div_step(m2, x.w1, d);
    let (q0, m0) = div_step(m1, x.w0, d);
    let r = Wide { w0: q0, w1: q1, w2: q2, w3: q3, w4: q4 };
    proof {
        let b = base();
        let di = d as int;
        let (x0, x1, x2, x3, x4) = (x.w0 as int, x.w1 as int, x.w2 as int, x.w3 as int, x.w4 as int);
        let (p0, p1, p2, p3, p4) = (q0 as int, q1 as int, q2 as int, q3 as int, q4 as int);
        assert((p0 + b * (p1 + b * (p2 + b * (p3 + b * p4)))) * di
            == p0 * di + b * (p1 * di + b * (p2 * di + b * (p3 * di + b * (p4 * di)))))
            by (nonlinear_arith);
        assert(p3 * di + b * (p4 * di) == x3 + b * x4 - m3) by (nonlinear_arith)
            requires p4 * di + m4 == 0 * b + x4, p3 * di + m3 == m4 * b + x3;
        assert(p2 * di + b * (p3 * di + b * (p4 * di)) == x2 + b * (x3 + b * x4) - m2)
            by (nonlinear_arith)
            requires p3 * di + b * (p4 * di) == x3 + b * x4 - m3, p2 * di + m2 == m3 * b + x2;
        assert(p1 * di + b * (p2 * di + b * (p3 * di + b * (p4 * di)))
            == x1 + b * (x2 + b * (x3 + b * x4)) - m1) by (nonlinear_arith)
            requires p2 * di + b * (p3 * di + b * (p4 * di)) == x2 + b * (x3 + b * x4) - m2,
                p1 * di + m1 == m2 * b + x1;
        assert(p0 * di + b * (p1 * di + b * (p2 * di + b * (p3 * di + b * (p4 * di))))
            == x0 + b * (x1 + b * (x2 + b * (x3 + b * x4))) - m0) by (nonlinear_arith)
            requires p1 * di + b * (p2 * di + b * (p3 * di + b * (p4 * di)))
                == x1 + b * (x2 + b * (x3 + b * x4)) - m1,
                p0 * di + m0 == m1 * b + x0;
        lemma_fundamental_div_mod_converse(x.value() as int, di, r.value() as int, m0 as int);
    }
    r
}

} // verus!
