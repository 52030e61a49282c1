use vstd::prelude::*;

verus! {

/// 2^128, the weight of the high half of a `U256`.
pub open spec fn half_base() -> int {
    u128::MAX as int + 1
}

/// 2^64.
pub open spec fn quarter_base() -> int {
    u64::MAX as int + 1
}

/// An unsigned 256-bit integer, as two 128-bit halves. The statistics use it
/// for sums of squared round-trip times, which can exceed 128 bits.
#[derive(Debug, Clone, Copy)]
pub struct U256 {
    pub hi: u128,
    pub lo: u128,
}

impl U256 {
    /// The number it stands for.
    pub open spec fn value(self) -> nat {
        (self.hi * half_base() + self.lo) as nat
    }
}

/// `x` as a 256-bit integer.
pub fn from_u128(x: u128) -> (res: U256)
    ensures
        res.value() == x,
{
    U256 { hi: 0, lo: x }
}

/// `x + y`, when it fits in 256 bits.
pub fn plus(x: U256, y: U256) -> (res: U256)
    requires
        x.value() + y.value() < half_base() * half_base(),
    ensures
        res.value() == x.value() + y.value(),
{
    let (lo, carry): (u128, u128) = match x.lo.checked_add(y.lo) {
        Some(l) => (l, 0),
        None => (x.lo - (u128::MAX - y.lo) - 1, 1),
    };
    assert(lo + carry * half_base() == x.lo + y.lo);
    assert(x.hi + y.hi + carry < half_base()) by (nonlinear_arith)
        requires
            (x.hi + y.hi + carry) * half_base() + lo == x.value() + y.value(),
            x.value() + y.value() < half_base() * half_base(),
            lo >= 0,
            half_base() > 0,
    ;
    let hi = x.hi + y.hi + carry;
    assert((hi * half_base() + lo) == (x.hi * half_base() + x.lo) + (y.hi * half_base() + y.lo))
        by (nonlinear_arith)
        requires
            hi == x.hi + y.hi + carry,
            lo + carry * half_base() == x.lo + y.lo,
    ;
    U256 { hi, lo }
}

/// `x - y`, when `y <= x`.
pub fn minus(x: U256, y: U256) -> (res: U256)
    requires
        y.value() <= x.value(),
    ensures
        res.value() == x.value() - y.value(),
{
    if x.lo >= y.lo {
        assert(y.hi <= x.hi) by (nonlinear_arith)
            requires
                y.hi * half_base() + y.lo <= x.hi * half_base() + x.lo,
                x.lo < half_base(),
                y.lo >= 0,
                half_base() > 0,
        ;
        let res = U256 { hi: x.hi - y.hi, lo: x.lo - y.lo };
        assert(res.hi * half_base() + res.lo == (x.hi * half_base() + x.lo) - (y.hi * half_base()
            + y.lo)) by (nonlinear_arith)
            requires
                res.hi == x.hi - y.hi,
                res.lo == x.lo - y.lo,
        ;
        res
    } else {
        assert(y.hi < x.hi) by (nonlinear_arith)
            requires
                y.hi * half_base() + y.lo <= x.hi * half_base() + x.lo,
                x.lo < y.lo,
                half_base() > 0,
        ;
        let lo = x.lo + (u128::MAX - y.lo) + 1;
        let res = U256 { hi: x.hi - y.hi - 1, lo };
        assert(res.hi * half_base() + res.lo == (x.hi * half_base() + x.lo) - (y.hi * half_base()
            + y.lo)) by (nonlinear_arith)
            requires
                res.hi == x.hi - y.hi - 1,
                res.lo == x.lo + half_base() - y.lo,
        ;
        res
    }
}

proof fn lemma_mul_fits(x: u128, y: u128)
    requires
        x < quarter_base(),
        y < quarter_base(),
    ensures
        x * y <= u128::MAX,
{
    assert(x * y <= 0xffff_ffff_ffff_ffffint * 0xffff_ffff_ffff_ffffint) by (nonlinear_arith)
        requires
            0 <= x <= 0xffff_ffff_ffff_ffffint,
            0 <= y <= 0xffff_ffff_ffff_ffffint,
    ;
    assert(0xffff_ffff_ffff_ffffint * 0xffff_ffff_ffff_ffffint <= u128::MAX) by (nonlinear_arith);
}

proof fn lemma_split_fits(p: u128)
    ensures
        (p % 0x1_0000_0000_0000_0000u128) * 0x1_0000_0000_0000_0000u128 <= u128::MAX,
{
    let r = p % 0x1_0000_0000_0000_0000u128;
    assert(r * quarter_base() <= (quarter_base() - 1) * quarter_base()) by (nonlinear_arith)
        requires
            0 <= r < quarter_base(),
    ;
}

/// `p` split at bit 64 and shifted up by 64 bits stands for `p * 2^64`.
proof fn lemma_split_value(p: u128)
    ensures
        (U256 {
            hi: p / 0x1_0000_0000_0000_0000u128,
            lo: ((p % 0x1_0000_0000_0000_0000u128) * 0x1_0000_0000_0000_0000u128) as u128,
        }).value() == p * quarter_base(),
{
    let m = quarter_base();
    let q = p / 0x1_0000_0000_0000_0000u128;
    let r = p % 0x1_0000_0000_0000_0000u128;
    lemma_split_fits(p);
    assert(q * half_base() + r * m == p * m) by (nonlinear_arith)
        requires
            p == q * m + r,
            half_base() == m * m,
    ;
}

/// The full product of two 128-bit integers.
pub fn product(a: u128, b: u128) -> (res: U256)
    ensures
        res.value() == a * b,
{
    let m: u128 = 0x1_0000_0000_0000_0000;
    let a0 = a % m;
    let a1 = a / m;
    let b0 = b % m;
    let b1 = b / m;
    proof {
        assert(a1 < m && b1 < m);
        lemma_mul_fits(a0, b0);
        lemma_mul_fits(a0, b1);
        lemma_mul_fits(a1, b0);
        lemma_mul_fits(a1, b1);
    }
    let p00 = a0 * b0;
    let p01 = a0 * b1;
    let p10 = a1 * b0;
    let p11 = a1 * b1;
    let t1 = U256 { hi: p11, lo: p00 };
    proof {
        lemma_split_fits(p01);
        lemma_split_fits(p10);
    }
    let t2 = U256 { hi: p01 / m, lo: (p01 % m) * m };
    let t3 = U256 { hi: p10 / m, lo: (p10 % m) * m };
    proof {
        lemma_split_value(p01);
        lemma_split_value(p10);
        assert(a * b == p11 * half_base() + p00 + p01 * m + p10 * m) by (nonlinear_arith)
            requires
                a == a1 * m + a0,
                b == b1 * m + b0,
                m == quarter_base(),
                half_base() == m * m,
                p00 == a0 * b0,
                p01 == a0 * b1,
                p10 == a1 * b0,
                p11 == a1 * b1,
        ;
        assert(a * b < half_base() * half_base()) by (nonlinear_arith)
            requires
                a < half_base(),
                b < half_base(),
                a >= 0,
                b >= 0,
        ;
    }
    let t12 = plus(t1, t2);
    plus(t12, t3)
}

} // verus!
