//! Exact rational numbers on `i64` numerator and denominator.
//!
//! Every operation computes the exact unreduced result in `i128`, divides
//! numerator and denominator by their greatest common divisor, and succeeds
//! exactly when the reduced fraction fits back into `i64`.  The spec-level
//! mirror `norm_rat` pins each operation down completely, including when it
//! reports overflow.

use vstd::prelude::*;
use vstd::arithmetic::div_mod::*;

verus! {

/// An exact rational number `num / den`; well-formed values have `den > 0`.
#[derive(Clone, Copy, Debug, PartialEq, Eq, Structural)]
pub struct Rat {
    pub num: i64,
    pub den: i64,
}

impl Rat {
    /// Well-formedness: a positive denominator.
    pub open spec fn wf(self) -> bool {
        self.den > 0
    }

    /// The value of `self` is the fraction `n / d` (meaningful for `d != 0`).
    pub open spec fn is_ratio(self, n: int, d: int) -> bool {
        self.num * d == n * self.den
    }

    /// Value equality with another rational.
    pub open spec fn val_eq(self, o: Rat) -> bool {
        self.num * o.den == o.num * self.den
    }

    /// Value comparison (for well-formed operands).
    pub open spec fn val_le(self, o: Rat) -> bool {
        self.num * o.den <= o.num * self.den
    }

    /// Strict value comparison (for well-formed operands).
    pub open spec fn val_lt(self, o: Rat) -> bool {
        self.num * o.den < o.num * self.den
    }

}

/// Greatest common divisor, by Euclid's algorithm.
pub open spec fn gcd(a: nat, b: nat) -> nat
    decreases b,
{
    if b == 0 {
        a
    } else {
        gcd(b, a % b)
    }
}

/// The gcd of two numbers, not both zero, is positive and divides both.
pub proof fn lemma_gcd_pos_divides(a: nat, b: nat)
    requires
        a > 0 || b > 0,
    ensures
        gcd(a, b) > 0,
        a % gcd(a, b) == 0,
        b % gcd(a, b) == 0,
    decreases b,
{
    if b == 0 {
        lemma_mod_self_0(a as int);
        lemma_small_mod(0, a);
    } else {
        lemma_gcd_pos_divides(b, a % b);
        let g = gcd(b, a % b);
        assert(gcd(a, b) == g);
        lemma_fundamental_div_mod(a as int, b as int);
        lemma_fundamental_div_mod(b as int, g as int);
        lemma_fundamental_div_mod((a % b) as int, g as int);
        let qb = b as int / g as int;
        let qr = (a % b) as int / g as int;
        let qa = a as int / b as int;
        assert(a as int == (g as int) * (qb * qa + qr)) by (nonlinear_arith)
            requires
                a as int == (b as int) * qa + (a % b) as int,
                b as int == (g as int) * qb,
                (a % b) as int == (g as int) * qr,
        ;
        lemma_mod_multiples_basic(qb * qa + qr, g as int);
        assert((g as int) * (qb * qa + qr) == (qb * qa + qr) * (g as int)) by (nonlinear_arith);
    }
}

/// Euclid's algorithm on non-negative `i128` values.
fn gcd_i128(a: i128, b: i128) -> (g: i128)
    requires
        a >= 0,
        b >= 0,
        a > 0 || b > 0,
    ensures
        g == gcd(a as nat, b as nat),
        g > 0,
{
    let mut x: i128 = a;
    let mut y: i128 = b;
    while y != 0
        invariant
            x >= 0,
            y >= 0,
            x > 0 || y > 0,
            gcd(x as nat, y as nat) == gcd(a as nat, b as nat),
        decreases y,
    {
        let r: i128 = x % y;
        assert(gcd(x as nat, y as nat) == gcd(y as nat, (x % y) as nat));
        x = y;
        y = r;
    }
    proof {
        lemma_gcd_pos_divides(a as nat, b as nat);
    }
    x
}

/// Does a mathematical integer fit into `i64`?
pub open spec fn fits_i64(x: int) -> bool {
    i64::MIN <= x && x <= i64::MAX
}

/// Absolute value of a mathematical integer.
pub open spec fn abs_i(n: int) -> nat {
    if n < 0 {
        (-n) as nat
    } else {
        n as nat
    }
}

/// Numerator of the gcd-reduced form of `n / d` (for `d > 0`).
pub open spec fn red_num(n: int, d: int) -> int {
    let g = gcd(abs_i(n), d as nat) as int;
    if n < 0 {
        -((-n) / g)
    } else {
        n / g
    }
}

/// Denominator of the gcd-reduced form of `n / d` (for `d > 0`).
pub open spec fn red_den(n: int, d: int) -> int {
    d / (gcd(abs_i(n), d as nat) as int)
}

/// The result every arithmetic operation is held to: the gcd-reduced form of
/// the exact fraction `n / d` if it fits into `i64`, and `None` otherwise.
/// Opaque: callers reason through `lemma_norm_rat_some` and the operations'
/// contracts, never through the reduction itself.
#[verifier::opaque]
pub open spec fn norm_rat(n: int, d: int) -> Option<Rat> {
    if fits_i64(red_num(n, d)) && fits_i64(red_den(n, d)) {
        Some(Rat { num: red_num(n, d) as i64, den: red_den(n, d) as i64 })
    } else {
        None
    }
}

/// Reduce the exact fraction `n / d` and narrow it to `i64`.
pub fn norm_make(n: i128, d: i128) -> (r: Option<Rat>)
    requires
        d > 0,
        n > i128::MIN,
    ensures
        r == norm_rat(n as int, d as int),
        r matches Some(v) ==> v.wf() && v.is_ratio(n as int, d as int) && abs_i(v.num as int)
            <= abs_i(n as int) && v.den <= d,
        fits_i64(n as int) && fits_i64(d as int) ==> r is Some,
{
    proof {
        reveal(norm_rat);
    }
    let na: i128 = if n < 0 {
        -n
    } else {
        n
    };
    let g = gcd_i128(na, d);
    let rn = na / g;
    let rd = d / g;
    proof {
        lemma_gcd_pos_divides(na as nat, d as nat);
        lemma_fundamental_div_mod(na as int, g as int);
        lemma_fundamental_div_mod(d as int, g as int);
        assert(na as int == (g as int) * (rn as int) && d as int == (g as int) * (rd as int));
        assert(rn >= 0 && rd >= 1) by (nonlinear_arith)
            requires
                na as int == (g as int) * (rn as int),
                d as int == (g as int) * (rd as int),
                g > 0,
                na >= 0,
                d > 0,
        ;
        // the reduced pair keeps the value and is no larger than the input
        assert((rn as int) * (d as int) == (na as int) * (rd as int) && rn <= na && rd <= d)
            by (nonlinear_arith)
            requires
                na as int == (g as int) * (rn as int),
                d as int == (g as int) * (rd as int),
                g >= 1,
                rn >= 0,
                rd >= 1,
        ;
    }
    let fits_n: bool = if n < 0 {
        rn <= 9223372036854775808i128  // |i64::MIN|
    } else {
        rn <= i64::MAX as i128
    };
    if fits_n && rd <= i64::MAX as i128 {
        let num: i64 = if n < 0 {
            (-rn) as i64
        } else {
            rn as i64
        };
        let v = Rat { num, den: rd as i64 };
        proof {
            assert(v.is_ratio(n as int, d as int)) by (nonlinear_arith)
                requires
                    (rn as int) * (d as int) == (na as int) * (rd as int),
                    v.num as int == if n < 0 { -(rn as int) } else { rn as int },
                    na as int == if n < 0 { -(n as int) } else { n as int },
                    v.den == rd as int,
            ;
        }
        Some(v)
    } else {
        None
    }
}

impl Rat {
    /// The rational zero.
    pub fn zero() -> (r: Rat)
        ensures
            r == (Rat { num: 0, den: 1 }),
    {
        Rat { num: 0, den: 1 }
    }

    /// The rational one.
    pub fn one() -> (r: Rat)
        ensures
            r == (Rat { num: 1, den: 1 }),
    {
        Rat { num: 1, den: 1 }
    }

    /// An integer as a rational.
    pub fn from_int(n: i64) -> (r: Rat)
        ensures
            r == (Rat { num: n, den: 1 }),
            r.wf(),
            r.is_ratio(n as int, 1),
    {
        Rat { num: n, den: 1 }
    }

    /// The reduced rational with the value `num / den`.
    pub fn new(num: i64, den: i64) -> (r: Option<Rat>)
        requires
            den != 0,
        ensures
            den > 0 ==> r == norm_rat(num as int, den as int),
            den < 0 ==> r == norm_rat(-(num as int), -(den as int)),
            r matches Some(v) ==> v.wf() && v.is_ratio(num as int, den as int),
    {
        let n0: i128 = num as i128;
        let d0: i128 = den as i128;
        let (n, d) = if d0 < 0 {
            (-n0, -d0)
        } else {
            (n0, d0)
        };
        let r = norm_make(n, d);
        proof {
            if den < 0 {
                if let Some(v) = r {
                    assert(v.is_ratio(num as int, den as int)) by (nonlinear_arith)
                        requires
                            v.is_ratio(-(num as int), -(den as int)),
                    ;
                }
            }
        }
        r
    }
}

/// Every product of an `i64` with an `i64` denominator-sized factor stays
/// well inside `i128`, so unreduced sums never overflow.
proof fn lemma_prod_in_i128(a: int, b: int)
    by (nonlinear_arith)
    requires
        -0x8000_0000_0000_0000 <= a <= 0x7fff_ffff_ffff_ffff,
        -0x8000_0000_0000_0000 <= b <= 0x7fff_ffff_ffff_ffff,
    ensures
        -0x4000_0000_0000_0000_0000_0000_0000_0000 <= a * b
            <= 0x4000_0000_0000_0000_0000_0000_0000_0000,
{
}

/// A numerator times a positive denominator: half of `i128`'s range, so two
/// such products can be added without overflow.
proof fn lemma_num_den_prod_bound(a: int, d: int)
    by (nonlinear_arith)
    requires
        -0x8000_0000_0000_0000 <= a <= 0x7fff_ffff_ffff_ffff,
        1 <= d <= 0x7fff_ffff_ffff_ffff,
    ensures
        -0x3fff_ffff_ffff_ffff_8000_0000_0000_0000 <= a * d
            <= 0x3fff_ffff_ffff_ffff_8000_0000_0000_0000,
{
}

/// Exact addition: reduced `a + b`, or `None` if it cannot fit.
pub fn checked_add(a: Rat, b: Rat) -> (r: Option<Rat>)
    requires
        a.wf(),
        b.wf(),
    ensures
        r == norm_rat(a.num * b.den + b.num * a.den, a.den * b.den),
        r matches Some(v) ==> v.wf() && v.is_ratio(
            a.num * b.den + b.num * a.den,
            a.den * b.den,
        ),
{
    proof {
        lemma_num_den_prod_bound(a.num as int, b.den as int);
        lemma_num_den_prod_bound(b.num as int, a.den as int);
        lemma_prod_in_i128(a.den as int, b.den as int);
        assert(a.den * b.den > 0) by (nonlinear_arith)
            requires
                a.den > 0,
                b.den > 0,
        ;
    }
    let n: i128 = (a.num as i128) * (b.den as i128) + (b.num as i128) * (a.den as i128);
    let d: i128 = (a.den as i128) * (b.den as i128);
    norm_make(n, d)
}

/// Exact subtraction: reduced `a - b`, or `None` if it cannot fit.
pub fn checked_sub(a: Rat, b: Rat) -> (r: Option<Rat>)
    requires
        a.wf(),
        b.wf(),
    ensures
        r == norm_rat(a.num * b.den - b.num * a.den, a.den * b.den),
        r matches Some(v) ==> v.wf() && v.is_ratio(
            a.num * b.den - b.num * a.den,
            a.den * b.den,
        ),
{
    proof {
        lemma_num_den_prod_bound(a.num as int, b.den as int);
        lemma_num_den_prod_bound(b.num as int, a.den as int);
        lemma_prod_in_i128(a.den as int, b.den as int);
        assert(a.den * b.den > 0) by (nonlinear_arith)
            requires
                a.den > 0,
                b.den > 0,
        ;
    }
    let n: i128 = (a.num as i128) * (b.den as i128) - (b.num as i128) * (a.den as i128);
    let d: i128 = (a.den as i128) * (b.den as i128);
    norm_make(n, d)
}

/// Exact multiplication: reduced `a * b`, or `None` if it cannot fit.
pub fn checked_mul(a: Rat, b: Rat) -> (r: Option<Rat>)
    requires
        a.wf(),
        b.wf(),
    ensures
        r == norm_rat(a.num * b.num, a.den * b.den),
        r matches Some(v) ==> v.wf() && v.is_ratio(a.num * b.num, a.den * b.den),
{
    proof {
        lemma_prod_in_i128(a.num as int, b.num as int);
        lemma_prod_in_i128(a.den as int, b.den as int);
        assert(a.den * b.den > 0) by (nonlinear_arith)
            requires
                a.den > 0,
                b.den > 0,
        ;
    }
    let n: i128 = (a.num as i128) * (b.num as i128);
    let d: i128 = (a.den as i128) * (b.den as i128);
    norm_make(n, d)
}

/// Exact division: reduced `a / b` for `b` with a non-zero value, or `None`
/// if it cannot fit.
pub fn checked_div(a: Rat, b: Rat) -> (r: Option<Rat>)
    requires
        a.wf(),
        b.wf(),
        b.num != 0,
    ensures
        b.num > 0 ==> r == norm_rat(a.num * b.den, a.den * b.num),
        b.num < 0 ==> r == norm_rat(-(a.num * b.den), -(a.den * b.num)),
        r matches Some(v) ==> v.wf() && v.is_ratio(a.num * b.den, a.den * b.num),
{
    proof {
        lemma_prod_in_i128(a.num as int, b.den as int);
        lemma_prod_in_i128(a.den as int, b.num as int);
        assert(b.num > 0 ==> a.den * b.num > 0) by (nonlinear_arith)
            requires
                a.den > 0,
        ;
        assert(b.num < 0 ==> a.den * b.num < 0) by (nonlinear_arith)
            requires
                a.den > 0,
        ;
    }
    let n0: i128 = (a.num as i128) * (b.den as i128);
    let d0: i128 = (a.den as i128) * (b.num as i128);
    let (n, d) = if d0 < 0 {
        (-n0, -d0)
    } else {
        (n0, d0)
    };
    let r = norm_make(n, d);
    proof {
        if d0 < 0 {
            if let Some(v) = r {
                assert(v.is_ratio(a.num * b.den, a.den * b.num)) by (nonlinear_arith)
                    requires
                        v.is_ratio(-(a.num * b.den), -(a.den * b.num)),
                ;
            }
        }
    }
    r
}

/// Exact negation: reduced `-a`, or `None` if it cannot fit.
pub fn checked_neg(a: Rat) -> (r: Option<Rat>)
    requires
        a.wf(),
    ensures
        r == norm_rat(-(a.num as int), a.den as int),
        r matches Some(v) ==> v.wf() && v.is_ratio(-(a.num as int), a.den as int),
{
    norm_make(-(a.num as i128), a.den as i128)
}

/// Exact value comparison `a <= b`.
pub fn rat_le(a: &Rat, b: &Rat) -> (r: bool)
    requires
        a.wf(),
        b.wf(),
    ensures
        r == a.val_le(*b),
{
    proof {
        lemma_prod_in_i128(a.num as int, b.den as int);
        lemma_prod_in_i128(b.num as int, a.den as int);
    }
    (a.num as i128) * (b.den as i128) <= (b.num as i128) * (a.den as i128)
}

/// Exact value comparison `a < b`.
pub fn rat_lt(a: &Rat, b: &Rat) -> (r: bool)
    requires
        a.wf(),
        b.wf(),
    ensures
        r == a.val_lt(*b),
{
    proof {
        lemma_prod_in_i128(a.num as int, b.den as int);
        lemma_prod_in_i128(b.num as int, a.den as int);
    }
    (a.num as i128) * (b.den as i128) < (b.num as i128) * (a.den as i128)
}

/// A value stated as one fraction is also stated as any cross-equal fraction.
pub proof fn lemma_ratio_trans(r: Rat, n: int, d: int, n2: int, d2: int)
    by (nonlinear_arith)
    requires
        d != 0,
        r.is_ratio(n, d),
        n * d2 == n2 * d,
    ensures
        r.is_ratio(n2, d2),
{
}

/// Four factors can be regrouped in any pairing.
pub proof fn lemma_mul4_shuffle(x: int, y: int, z: int, w: int)
    by (nonlinear_arith)
    ensures
        (x * y) * (z * w) == (x * z) * (y * w),
        (x * y) * (z * w) == (x * w) * (y * z),
        (x * y) * (z * w) == (x * y) * (w * z),
{
}

/// Multiplication commutes.
pub proof fn lemma_mul_comm(x: int, y: int)
    by (nonlinear_arith)
    ensures
        x * y == y * x,
{
}

/// Multiplication distributes over addition and subtraction.
pub proof fn lemma_distrib(x: int, y: int, z: int)
    by (nonlinear_arith)
    ensures
        (x + y) * z == x * z + y * z,
        (x - y) * z == x * z - y * z,
{
}

/// Addition respects value equality of its operands.
pub proof fn lemma_add_respects(a: Rat, b: Rat, v: Rat, n1: int, d1: int, n2: int, d2: int)
    requires
        a.wf(),
        b.wf(),
        d1 != 0,
        d2 != 0,
        a.is_ratio(n1, d1),
        b.is_ratio(n2, d2),
        v.is_ratio(a.num * b.den + b.num * a.den, a.den * b.den),
    ensures
        v.is_ratio(n1 * d2 + n2 * d1, d1 * d2),
{
    lemma_distrib(a.num * b.den, b.num * a.den, d1 * d2);
    lemma_mul4_shuffle(a.num as int, b.den as int, d1, d2);
    assert((a.num * d1) * (b.den * d2) == (n1 * a.den) * (b.den * d2));
    lemma_mul4_shuffle(n1, a.den as int, b.den as int, d2);
    lemma_mul4_shuffle(b.num as int, a.den as int, d1, d2);
    assert((b.num * d2) * (a.den * d1) == (n2 * b.den) * (a.den * d1));
    lemma_mul4_shuffle(n2, b.den as int, a.den as int, d1);
    lemma_mul_comm(a.den as int, b.den as int);
    lemma_distrib(n1 * d2, n2 * d1, a.den * b.den);
    assert((a.num * b.den + b.num * a.den) * (d1 * d2) == (n1 * d2 + n2 * d1) * (a.den * b.den));
    assert(a.den * b.den != 0) by (nonlinear_arith)
        requires
            a.den > 0,
            b.den > 0,
    ;
    lemma_ratio_trans(v, a.num * b.den + b.num * a.den, a.den * b.den, n1 * d2 + n2 * d1, d1 * d2);
}

/// Subtraction respects value equality of its operands.
pub proof fn lemma_sub_respects(a: Rat, b: Rat, v: Rat, n1: int, d1: int, n2: int, d2: int)
    requires
        a.wf(),
        b.wf(),
        d1 != 0,
        d2 != 0,
        a.is_ratio(n1, d1),
        b.is_ratio(n2, d2),
        v.is_ratio(a.num * b.den - b.num * a.den, a.den * b.den),
    ensures
        v.is_ratio(n1 * d2 - n2 * d1, d1 * d2),
{
    lemma_distrib(a.num * b.den, b.num * a.den, d1 * d2);
    lemma_mul4_shuffle(a.num as int, b.den as int, d1, d2);
    assert((a.num * d1) * (b.den * d2) == (n1 * a.den) * (b.den * d2));
    lemma_mul4_shuffle(n1, a.den as int, b.den as int, d2);
    lemma_mul4_shuffle(b.num as int, a.den as int, d1, d2);
    assert((b.num * d2) * (a.den * d1) == (n2 * b.den) * (a.den * d1));
    lemma_mul4_shuffle(n2, b.den as int, a.den as int, d1);
    lemma_mul_comm(a.den as int, b.den as int);
    lemma_distrib(n1 * d2, n2 * d1, a.den * b.den);
    assert((a.num * b.den - b.num * a.den) * (d1 * d2) == (n1 * d2 - n2 * d1) * (a.den * b.den));
    assert(a.den * b.den != 0) by (nonlinear_arith)
        requires
            a.den > 0,
            b.den > 0,
    ;
    lemma_ratio_trans(v, a.num * b.den - b.num * a.den, a.den * b.den, n1 * d2 - n2 * d1, d1 * d2);
}

/// Multiplication respects value equality of its operands.
pub proof fn lemma_mul_respects(a: Rat, b: Rat, v: Rat, n1: int, d1: int, n2: int, d2: int)
    requires
        a.wf(),
        b.wf(),
        d1 != 0,
        d2 != 0,
        a.is_ratio(n1, d1),
        b.is_ratio(n2, d2),
        v.is_ratio(a.num * b.num, a.den * b.den),
    ensures
        v.is_ratio(n1 * n2, d1 * d2),
{
    lemma_mul4_shuffle(a.num as int, b.num as int, d1, d2);
    assert((a.num * d1) * (b.num * d2) == (n1 * a.den) * (n2 * b.den));
    lemma_mul4_shuffle(n1, a.den as int, n2, b.den as int);
    assert((a.num * b.num) * (d1 * d2) == (n1 * n2) * (a.den * b.den));
    assert(a.den * b.den != 0) by (nonlinear_arith)
        requires
            a.den > 0,
            b.den > 0,
    ;
    lemma_ratio_trans(v, a.num * b.num, a.den * b.den, n1 * n2, d1 * d2);
}

/// Division respects value equality of its operands.
pub proof fn lemma_div_respects(a: Rat, b: Rat, v: Rat, n1: int, d1: int, n2: int, d2: int)
    requires
        a.wf(),
        b.wf(),
        b.num != 0,
        d1 != 0,
        d2 != 0,
        n2 != 0,
        a.is_ratio(n1, d1),
        b.is_ratio(n2, d2),
        v.is_ratio(a.num * b.den, a.den * b.num),
    ensures
        v.is_ratio(n1 * d2, d1 * n2),
{
    lemma_mul4_shuffle(a.num as int, b.den as int, d1, n2);
    assert((a.num * d1) * (b.den * n2) == (n1 * a.den) * (b.den * n2));
    lemma_mul4_shuffle(n1, a.den as int, b.den as int, n2);
    assert((n1 * a.den) * (b.den * n2) == (n1 * (a.den * (n2 * b.den)))) by (nonlinear_arith);
    assert(n2 * b.den == b.num * d2);
    assert((n1 * (a.den * (b.num * d2))) == (n1 * d2) * (a.den * b.num)) by (nonlinear_arith);
    assert(a.den * b.num != 0) by (nonlinear_arith)
        requires
            a.den > 0,
            b.num != 0,
    ;
    lemma_ratio_trans(v, a.num * b.den, a.den * b.num, n1 * d2, d1 * n2);
}

/// Negation respects value equality of its operand.
pub proof fn lemma_neg_respects(a: Rat, v: Rat, n: int, d: int)
    by (nonlinear_arith)
    requires
        a.wf(),
        d != 0,
        a.is_ratio(n, d),
        v.is_ratio(-(a.num as int), a.den as int),
    ensures
        v.is_ratio(-n, d),
{
}

/// Two rationals stating the same fraction have equal values.
pub proof fn lemma_ratio_same_val(x: Rat, y: Rat, n: int, d: int)
    by (nonlinear_arith)
    requires
        d != 0,
        x.is_ratio(n, d),
        y.is_ratio(n, d),
    ensures
        x.val_eq(y),
{
}

/// Fractions over a common positive denominator order by their numerators.
pub proof fn lemma_ratio_lt(x: Rat, y: Rat, n1: int, n2: int, d: int)
    by (nonlinear_arith)
    requires
        x.wf(),
        y.wf(),
        d > 0,
        n1 < n2,
        x.is_ratio(n1, d),
        y.is_ratio(n2, d),
    ensures
        x.val_lt(y),
{
}

/// What `norm_rat` returns, when it returns: a well-formed rational with the
/// requested value and the sign of the numerator.
pub proof fn lemma_norm_rat_some(n: int, d: int)
    requires
        d > 0,
    ensures
        norm_rat(n, d) matches Some(v) ==> v.wf() && v.is_ratio(n, d) && (n > 0 ==> v.num > 0)
            && (n == 0 ==> v.num == 0) && (n < 0 ==> v.num < 0),
{
    reveal(norm_rat);
    if norm_rat(n, d) is Some {
        let na = abs_i(n) as int;
        let g = gcd(abs_i(n), d as nat) as int;
        lemma_gcd_pos_divides(abs_i(n), d as nat);
        lemma_fundamental_div_mod(na, g);
        lemma_fundamental_div_mod(d, g);
        let q = na / g;
        let p = d / g;
        assert(na == g * q && d == g * p);
        assert(q >= 0 && p >= 1 && (na > 0 ==> q > 0)) by (nonlinear_arith)
            requires
                na == g * q,
                d == g * p,
                g > 0,
                na >= 0,
                d > 0,
        ;
        assert(q * d == na * p) by (nonlinear_arith)
            requires
                na == g * q,
                d == g * p,
        ;
        let v = norm_rat(n, d)->Some_0;
        if n < 0 {
            assert(v.num == -q && v.den == p);
            assert(v.num * d == n * v.den) by (nonlinear_arith)
                requires
                    q * d == na * p,
                    na == -n,
                    v.num == -q,
                    v.den == p,
            ;
        } else {
            assert(v.num == q && v.den == p);
            assert(v.num * d == n * v.den);
        }
    }
}

/// Values of fractions over positive denominators order by cross products.
pub proof fn lemma_ratio_lt_cross(p: Rat, q: Rat, n1: int, d1: int, n2: int, d2: int)
    requires
        p.wf(),
        q.wf(),
        d1 > 0,
        d2 > 0,
        p.is_ratio(n1, d1),
        q.is_ratio(n2, d2),
        n1 * d2 < n2 * d1,
    ensures
        p.val_lt(q),
{
    assert((p.num * q.den) * (d1 * d2) == (n1 * d2) * (p.den * q.den)) by (nonlinear_arith)
        requires
            p.num * d1 == n1 * p.den,
    ;
    assert((q.num * p.den) * (d1 * d2) == (n2 * d1) * (p.den * q.den)) by (nonlinear_arith)
        requires
            q.num * d2 == n2 * q.den,
    ;
    assert((n1 * d2) * (p.den * q.den) < (n2 * d1) * (p.den * q.den)) by (nonlinear_arith)
        requires
            n1 * d2 < n2 * d1,
            p.den > 0,
            q.den > 0,
    ;
    assert(p.num * q.den < q.num * p.den) by (nonlinear_arith)
        requires
            (p.num * q.den) * (d1 * d2) < (q.num * p.den) * (d1 * d2),
            d1 > 0,
            d2 > 0,
    ;
}

/// A well-formed rational stating a positive fraction has a positive numerator.
pub proof fn lemma_ratio_pos(r: Rat, n: int, d: int)
    by (nonlinear_arith)
    requires
        r.wf(),
        n > 0,
        d > 0,
        r.is_ratio(n, d),
    ensures
        r.num > 0,
{
}


/// Denominator of the square-root approximation grid: results are integer
/// multiples of `1 / SQRT_SCALE`.
pub const SQRT_SCALE: i64 = 1048576;

/// Floor of the square root of a natural number.
pub open spec fn isqrt(m: nat) -> nat
    decreases m,
{
    if m == 0 {
        0
    } else {
        let p = isqrt((m - 1) as nat);
        if (p + 1) * (p + 1) <= m {
            p + 1
        } else {
            p
        }
    }
}

/// `isqrt` is bracketed by the two neighbouring squares.
pub proof fn lemma_isqrt_bracket(m: nat)
    ensures
        isqrt(m) * isqrt(m) <= m,
        m < (isqrt(m) + 1) * (isqrt(m) + 1),
    decreases m,
{
    if m == 0 {
        assert(isqrt(m) == 0);
        assert((isqrt(m) + 1) * (isqrt(m) + 1) == 1) by (nonlinear_arith)
            requires
                isqrt(m) == 0,
        ;
    } else {
        lemma_isqrt_bracket((m - 1) as nat);
        let p = isqrt((m - 1) as nat);
        assert(p * p <= m - 1 && m - 1 < (p + 1) * (p + 1));
        assert(isqrt(m) == if (p + 1) * (p + 1) <= m {
            p + 1
        } else {
            p
        });
        if (p + 1) * (p + 1) <= m {
            assert(m <= (p + 1) * (p + 1));
            assert((p + 1) * (p + 1) < (p + 2) * (p + 2)) by (nonlinear_arith);
            assert((isqrt(m) + 1) * (isqrt(m) + 1) == (p + 2) * (p + 2));
            assert(m < (isqrt(m) + 1) * (isqrt(m) + 1));
        } else {
            assert(isqrt(m) == p);
            assert(p * p <= m);
            assert(m < (p + 1) * (p + 1));
        }
    }
}

/// Any value satisfying the square bracket is the floor square root.
pub proof fn lemma_isqrt_unique(m: nat, r: nat)
    requires
        r * r <= m,
        m < (r + 1) * (r + 1),
    ensures
        r == isqrt(m),
{
    lemma_isqrt_bracket(m);
    let s = isqrt(m);
    assert(r == s) by (nonlinear_arith)
        requires
            r * r <= m,
            m < (r + 1) * (r + 1),
            s * s <= m,
            m < (s + 1) * (s + 1),
    ;
}

/// Floor square root by binary search.
fn isqrt_floor(m: i128) -> (r: i128)
    requires
        0 <= m <= 0x2000_0000_0000_0000_0000_0000_0000_0000,
    ensures
        r == isqrt(m as nat),
        r >= 0,
{
    let mut lo: i128 = 0;
    let mut hi: i128 = 9223372036854775808i128;  // 2^63; its square exceeds every allowed m
    proof {
        assert((9223372036854775808i128 as int) * (9223372036854775808i128 as int) > m as int)
            by (nonlinear_arith)
            requires
                m <= 0x2000_0000_0000_0000_0000_0000_0000_0000,
        ;
    }
    while lo + 1 < hi
        invariant
            0 <= lo < hi <= 9223372036854775808i128,
            lo * lo <= m,
            (hi as int) * (hi as int) > m as int,
        decreases hi - lo,
    {
        let mid: i128 = lo + (hi - lo) / 2;
        assert(lo < mid < hi);
        proof {
            assert((mid as int) * (mid as int) <= 0x4000_0000_0000_0000_0000_0000_0000_0000)
                by (nonlinear_arith)
                requires
                    0 <= mid <= 9223372036854775808i128,
            ;
        }
        let sq: i128 = mid * mid;
        if sq <= m {
            lo = mid;
        } else {
            hi = mid;
        }
    }
    proof {
        lemma_isqrt_unique(m as nat, lo as nat);
    }
    lo
}

/// Ceiling division for positive divisors.
pub open spec fn ceil_div(a: int, b: int) -> int {
    (a + b - 1) / b
}

/// `ceil_div` brackets the exact quotient.
proof fn lemma_ceil_div_bracket(a: int, b: int)
    requires
        a >= 0,
        b >= 1,
    ensures
        ceil_div(a, b) * b >= a,
        (ceil_div(a, b) - 1) * b < a,
        a >= 1 ==> ceil_div(a, b) >= 1,
{
    let q = (a + b - 1) / b;
    lemma_fundamental_div_mod(a + b - 1, b);
    let rem = (a + b - 1) % b;
    lemma_mod_bound(a + b - 1, b);
    assert(a + b - 1 == b * q + rem);
    lemma_mul_comm(q, b);
    assert(q * b == a + b - 1 - rem);
    assert(q * b >= a);
    lemma_distrib(q, 1, b);
    assert((q - 1) * b == q * b - b);
    assert((q - 1) * b < a);
    if a >= 1 {
        assert(q >= 1) by (nonlinear_arith)
            requires
                q * b >= 1,
                b >= 1,
        ;
    }
}

/// The scaled integer whose square root is approximated: the ceiling of
/// `v * SQRT_SCALE^2`.
pub open spec fn sqrt_target(v: Rat) -> int {
    ceil_div(v.num * (SQRT_SCALE as int) * (SQRT_SCALE as int), v.den as int)
}

/// The numerator of the square-root approximation on the `1 / SQRT_SCALE`
/// grid: the least `k` with `k * k >= sqrt_target(v)`.
pub open spec fn sqrt_k(v: Rat) -> int {
    let m = sqrt_target(v) as nat;
    if isqrt(m) * isqrt(m) == m {
        isqrt(m) as int
    } else {
        (isqrt(m) + 1) as int
    }
}

/// Deterministic rational square-root approximation, from above: the least
/// multiple of `1 / SQRT_SCALE` whose square is at least `v`.  Always defined
/// and positive for positive `v`.
pub fn sqrt_rat(v: Rat) -> (r: Rat)
    requires
        v.wf(),
        v.num > 0,
    ensures
        Some(r) == norm_rat(sqrt_k(v), SQRT_SCALE as int),
        r.wf(),
        r.num > 0,
        r.is_ratio(sqrt_k(v), SQRT_SCALE as int),
        sqrt_k(v) >= 1,
        sqrt_k(v) * sqrt_k(v) * v.den >= v.num * (SQRT_SCALE as int) * (SQRT_SCALE as int),
        (sqrt_k(v) - 1) * (sqrt_k(v) - 1) * v.den < v.num * (SQRT_SCALE as int) * (
        SQRT_SCALE as int) + v.den,
{
    let mnum: i128 = (v.num as i128) * (SQRT_SCALE as i128) * (SQRT_SCALE as i128);
    proof {
        assert((v.num as int) * (SQRT_SCALE as int) * (SQRT_SCALE as int)
            <= 0x1fff_ffff_ffff_ffff_c000_0000_0000_0000) by (nonlinear_arith)
            requires
                0 < v.num <= 0x7fff_ffff_ffff_ffff,
                SQRT_SCALE as int == 1048576,
        ;
    }
    let m: i128 = (mnum + (v.den as i128) - 1) / (v.den as i128);
    proof {
        lemma_ceil_div_bracket(mnum as int, v.den as int);
        assert(m as int == ceil_div(mnum as int, v.den as int));
        assert(m <= mnum) by (nonlinear_arith)
            requires
                m as int == (mnum as int + v.den - 1) / (v.den as int),
                mnum >= 1,
                v.den >= 1,
                (m as int - 1) * (v.den as int) < mnum as int,
                m >= 1,
        ;
    }
    let s = isqrt_floor(m);
    proof {
        lemma_isqrt_bracket(m as nat);
        // the root of the bounded target fits comfortably below i64::MAX
        assert(s <= 6521908912666391106i128) by (nonlinear_arith)
            requires
                (s as int) * (s as int) <= m as int,
                m <= 0x2000_0000_0000_0000_0000_0000_0000_0000,
                s >= 0,
        ;
    }
    let k: i128 = if s * s == m {
        s
    } else {
        s + 1
    };
    proof {
        assert(k as int == sqrt_k(v));
        assert(k >= 1) by (nonlinear_arith)
            requires
                m >= 1,
                (s as int) * (s as int) <= m as int,
                k as int == if (s as int) * (s as int) == m as int { s as int } else {
                    s as int + 1
                },
                s >= 0,
        ;
        // upper bracket: k * k >= m >= v * SQRT_SCALE^2
        assert(k * k >= m) by (nonlinear_arith)
            requires
                (s as int) * (s as int) <= m as int,
                m < ((s as int) + 1) * ((s as int) + 1),
                k as int == if (s as int) * (s as int) == m as int { s as int } else {
                    s as int + 1
                },
        ;
        assert(k * k * v.den >= v.num * (SQRT_SCALE as int) * (SQRT_SCALE as int))
            by (nonlinear_arith)
            requires
                k * k >= m as int,
                (m as int) * (v.den as int) >= (v.num as int) * (SQRT_SCALE as int) * (
                SQRT_SCALE as int),
                v.den >= 1,
        ;
        // lower bracket: (k - 1)^2 < m, and (m - 1) * den < v * SQRT_SCALE^2
        assert((k - 1) * (k - 1) < m) by (nonlinear_arith)
            requires
                (s as int) * (s as int) <= m as int,
                m >= 1,
                k as int == if (s as int) * (s as int) == m as int { s as int } else {
                    s as int + 1
                },
                s >= 0,
        ;
        assert((k - 1) * (k - 1) * v.den < v.num * (SQRT_SCALE as int) * (SQRT_SCALE as int)
            + v.den) by (nonlinear_arith)
            requires
                (k - 1) * (k - 1) < m as int,
                (k - 1) * (k - 1) >= 0,
                (m as int - 1) * (v.den as int) < (v.num as int) * (SQRT_SCALE as int) * (
                SQRT_SCALE as int),
                v.den >= 1,
        ;
    }
    let r = norm_make(k, SQRT_SCALE as i128);
    proof {
        assert(fits_i64(k as int) && fits_i64(SQRT_SCALE as int));
    }
    let rv = match r {
        Some(rv) => rv,
        None => {
            proof {
                assert(false);
            }
            Rat { num: 1, den: 1 }
        },
    };
    proof {
        lemma_ratio_pos(rv, k as int, SQRT_SCALE as int);
    }
    rv
}

} // verus!
