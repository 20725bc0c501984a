//! Deterministic sampling of a distribution's density curve.
//!
//! Curve points sample the density at `n` evenly spaced abscissas including
//! both endpoints; fill polygons wrap `n` interior samples, spaced strictly
//! inside the range, between two exact corner vertices on the x-axis, so a
//! renderer can close the shape under the curve.  Every abscissa is an exact
//! rational and every height is a `DensityValue`, so the sequences are exact
//! up to the caller's final transcendental step.

use vstd::prelude::*;
use crate::rat::{Rat, norm_rat, checked_add, checked_sub, checked_mul, checked_div,
    lemma_add_respects, lemma_mul_respects, lemma_div_respects, lemma_norm_rat_some,
    lemma_ratio_trans, lemma_ratio_lt, lemma_ratio_lt_cross, lemma_ratio_same_val,
    lemma_distrib};
use crate::dist::{Distribution, DensityValue, EngineError, spec_eval, exp_num, exp_den};

verus! {

/// One sample of the density curve.
#[derive(Clone, Copy, Debug, PartialEq, Eq, Structural)]
pub struct CurvePoint {
    /// The abscissa.
    pub x: Rat,
    /// The density at `x`, in exact symbolic form.
    pub y: DensityValue,
}

/// The height of a fill-polygon vertex.
#[derive(Clone, Copy, Debug, PartialEq, Eq, Structural)]
pub enum PolyHeight {
    /// Exactly zero: a corner vertex on the x-axis.
    Zero,
    /// A point on the density curve; always strictly positive.
    Curve(DensityValue),
}

/// One vertex of a fill polygon.
#[derive(Clone, Copy, Debug, PartialEq, Eq, Structural)]
pub struct PolyVertex {
    /// The abscissa.
    pub x: Rat,
    /// The height.
    pub y: PolyHeight,
}

/// The grid abscissa `a + (b - a) * i / m`, exactly as computed: span,
/// scaling, division, translation, each reduced.
pub open spec fn spec_grid(a: Rat, b: Rat, i: int, m: int) -> Option<Rat> {
    match norm_rat(b.num * a.den - a.num * b.den, b.den * a.den) {
        None => None,
        Some(span) => match norm_rat(span.num * i, span.den * 1) {
            None => None,
            Some(u) => match norm_rat(u.num * 1, u.den * m) {
                None => None,
                Some(w) => norm_rat(a.num * w.den + w.num * a.den, a.den * w.den),
            },
        },
    }
}

/// Unreduced numerator of the grid abscissa `a + (b - a) * i / m` over the
/// common denominator `grid_den(a, b, m)`.
pub open spec fn grid_num(a: Rat, b: Rat, i: int, m: int) -> int {
    a.num * ((b.den * a.den) * m) + ((b.num * a.den - a.num * b.den) * i) * a.den
}

/// Unreduced denominator of the grid abscissas.
pub open spec fn grid_den(a: Rat, b: Rat, m: int) -> int {
    a.den * ((b.den * a.den) * m)
}

/// When the grid abscissa exists it is well-formed and states the exact
/// fraction `a + (b - a) * i / m`.
pub proof fn lemma_spec_grid_ideal(a: Rat, b: Rat, i: int, m: int)
    requires
        a.wf(),
        b.wf(),
        1 <= m <= i64::MAX,
        0 <= i <= i64::MAX,
    ensures
        spec_grid(a, b, i, m) matches Some(x) ==> x.wf() && x.is_ratio(
            grid_num(a, b, i, m),
            grid_den(a, b, m),
        ),
        grid_den(a, b, m) > 0,
{
    assert(b.den * a.den > 0 && a.den * ((b.den * a.den) * m) > 0) by (nonlinear_arith)
        requires
            a.den > 0,
            b.den > 0,
            m >= 1,
    ;
    if spec_grid(a, b, i, m) is Some {
        let dn = b.num * a.den - a.num * b.den;
        let dd = b.den * a.den;
        lemma_norm_rat_some(dn, dd);
        let span = norm_rat(dn, dd)->Some_0;
        let ir = Rat { num: i as i64, den: 1 };
        assert(span.den * 1 > 0);
        lemma_norm_rat_some(span.num * i, span.den * 1);
        let u = norm_rat(span.num * i, span.den * 1)->Some_0;
        assert(u.is_ratio(span.num * ir.num, span.den * ir.den));
        lemma_mul_respects(span, ir, u, dn, dd, i, 1);
        assert(u.is_ratio(dn * i, dd * 1));
        assert(u.is_ratio(dn * i, dd));
        let mr = Rat { num: m as i64, den: 1 };
        assert(u.den * m > 0) by (nonlinear_arith)
            requires
                u.den > 0,
                m >= 1,
        ;
        lemma_norm_rat_some(u.num * 1, u.den * m);
        let w = norm_rat(u.num * 1, u.den * m)->Some_0;
        assert(w.is_ratio(u.num * mr.den, u.den * mr.num));
        lemma_div_respects(u, mr, w, dn * i, dd, m, 1);
        assert(w.is_ratio((dn * i) * 1, dd * m));
        assert(w.is_ratio(dn * i, dd * m));
        assert(a.den * w.den > 0) by (nonlinear_arith)
            requires
                a.den > 0,
                w.den > 0,
        ;
        lemma_norm_rat_some(a.num * w.den + w.num * a.den, a.den * w.den);
        let x = norm_rat(a.num * w.den + w.num * a.den, a.den * w.den)->Some_0;
        assert(dd * m != 0);
        lemma_add_respects(a, w, x, a.num as int, a.den as int, dn * i, dd * m);
        assert(x.is_ratio(a.num * (dd * m) + (dn * i) * a.den, a.den * (dd * m)));
    }
}

/// The grid starts at `a`, ends at `b`, and moves strictly right between
/// consecutive indices whenever `a < b`.
pub proof fn lemma_grid_ends(a: Rat, b: Rat, m: int)
    requires
        a.wf(),
        b.wf(),
        1 <= m <= i64::MAX,
    ensures
        a.is_ratio(grid_num(a, b, 0, m), grid_den(a, b, m)),
        b.is_ratio(grid_num(a, b, m, m), grid_den(a, b, m)),
    {
    let dn = b.num * a.den - a.num * b.den;
    let dd = b.den * a.den;
    assert(a.num * (a.den * (dd * m)) == (a.num * (dd * m) + (dn * 0) * a.den) * a.den) by (
    nonlinear_arith);
    lemma_ratio_trans(a, a.num as int, a.den as int, grid_num(a, b, 0, m), grid_den(a, b, m));
    assert(b.num * (a.den * dd) == (a.num * dd + dn * a.den) * b.den) by (nonlinear_arith)
        requires
            dn == b.num * a.den - a.num * b.den,
            dd == b.den * a.den,
    ;
    assert(b.num * (a.den * (dd * m)) == (b.num * (a.den * dd)) * m) by (nonlinear_arith);
    lemma_distrib(a.num * (dd * m), (dn * m) * a.den, b.den as int);
    assert((a.num * (dd * m)) * b.den == ((a.num * dd) * b.den) * m) by (nonlinear_arith);
    assert(((dn * m) * a.den) * b.den == ((dn * a.den) * b.den) * m) by (nonlinear_arith);
    lemma_distrib(a.num * dd, dn * a.den, b.den as int);
    lemma_distrib((a.num * dd) * b.den, (dn * a.den) * b.den, m);
    assert((a.num * (dd * m) + (dn * m) * a.den) * b.den == ((a.num * dd + dn * a.den) * b.den)
        * m);
    assert(b.num * (a.den * (dd * m)) == (a.num * (dd * m) + (dn * m) * a.den) * b.den);
    lemma_ratio_trans(b, b.num as int, b.den as int, grid_num(a, b, m, m), grid_den(a, b, m));
}

/// Between consecutive grid indices the numerator grows by the positive span.
pub proof fn lemma_grid_step(a: Rat, b: Rat, i: int, j: int, m: int)
    requires
        a.wf(),
        b.wf(),
        a.val_lt(b),
        1 <= m,
        i < j,
    ensures
        grid_num(a, b, i, m) < grid_num(a, b, j, m),
{
    let dn = b.num * a.den - a.num * b.den;
    assert(dn > 0);
    assert((dn * i) * a.den < (dn * j) * a.den) by (nonlinear_arith)
        requires
            dn > 0,
            i < j,
            a.den > 0,
    ;
}

/// Evenly spaced samples of the density curve over `[x_min, x_max]`, both
/// endpoints included: `n` points with abscissa `x_min + (x_max - x_min) *
/// i / (n - 1)` and the exact density at each abscissa.  Fewer than two
/// points are an invalid sample count; a non-positive standard deviation is
/// an invalid parameter; a fraction that cannot be represented is overflow.
pub fn curve_points(d: &Distribution, x_min: Rat, x_max: Rat, n: usize) -> (r: Result<
    Vec<CurvePoint>,
    EngineError,
>)
    requires
        d.params_wf(),
        x_min.wf(),
        x_max.wf(),
        n <= i64::MAX,
    ensures
        r is Ok <==> n >= 2 && d.std_dev.num > 0 && (forall|i: int|
            0 <= i < n ==> ((#[trigger] spec_grid(x_min, x_max, i, n - 1)) matches Some(x)
                && spec_eval(*d, x) is Some)),
        r matches Ok(v) ==> v@.len() == n && forall|i: int|
            0 <= i < n ==> Some((#[trigger] v@[i]).x) == spec_grid(x_min, x_max, i, n - 1)
                && v@[i].y.std_dev == d.std_dev && Some(v@[i].y.exponent) == spec_eval(
                *d,
                v@[i].x,
            ),
        r matches Ok(v) ==> forall|i: int|
            0 <= i < n ==> (#[trigger] v@[i]).x.wf() && v@[i].x.is_ratio(
                grid_num(x_min, x_max, i, n - 1),
                grid_den(x_min, x_max, n - 1),
            ) && v@[i].y.exponent.is_ratio(exp_num(*d, v@[i].x), exp_den(*d, v@[i].x)),
        r matches Ok(v) ==> v@[0].x.val_eq(x_min) && v@[n - 1].x.val_eq(x_max),
        r matches Ok(v) ==> x_min.val_lt(x_max) ==> forall|i: int|
            0 <= i < n - 1 ==> (#[trigger] v@[i]).x.val_lt(v@[i + 1].x),
        r matches Err(e) ==> if n < 2 {
            e is InvalidSampleCount
        } else if d.std_dev.num <= 0 {
            e is InvalidParameter
        } else {
            e is Overflow
        },
{
    if n < 2 {
        return Err(EngineError::InvalidSampleCount);
    }
    if d.std_dev.num <= 0 {
        return Err(EngineError::InvalidParameter);
    }
    let m: i64 = (n - 1) as i64;
    let span = match checked_sub(x_max, x_min) {
        Some(s) => s,
        None => {
            proof {
                assert(spec_grid(x_min, x_max, 0, n - 1) is None);
            }
            return Err(EngineError::Overflow);
        },
    };
    let mut v: Vec<CurvePoint> = Vec::new();
    let mut i: usize = 0;
    while i < n
        invariant
            0 <= i <= n,
            2 <= n <= i64::MAX,
            m == n - 1,
            d.params_wf(),
            d.std_dev.num > 0,
            x_min.wf(),
            x_max.wf(),
            Some(span) == norm_rat(
                x_max.num * x_min.den - x_min.num * x_max.den,
                x_max.den * x_min.den,
            ),
            span.wf(),
            v@.len() == i,
            forall|j: int|
                0 <= j < i ==> Some((#[trigger] v@[j]).x) == spec_grid(x_min, x_max, j, n - 1)
                    && v@[j].y.std_dev == d.std_dev && Some(v@[j].y.exponent) == spec_eval(
                    *d,
                    v@[j].x,
                ),
            forall|j: int|
                0 <= j < i ==> (#[trigger] v@[j]).x.wf() && v@[j].x.is_ratio(
                    grid_num(x_min, x_max, j, n - 1),
                    grid_den(x_min, x_max, n - 1),
                ) && v@[j].y.exponent.is_ratio(exp_num(*d, v@[j].x), exp_den(*d, v@[j].x)),
        decreases n - i,
    {
        let u = match checked_mul(span, Rat::from_int(i as i64)) {
            Some(u) => u,
            None => {
                proof {
                    assert(spec_grid(x_min, x_max, i as int, n - 1) is None);
                }
                return Err(EngineError::Overflow);
            },
        };
        let w = match checked_div(u, Rat::from_int(m)) {
            Some(w) => w,
            None => {
                proof {
                    assert(spec_grid(x_min, x_max, i as int, n - 1) is None);
                }
                return Err(EngineError::Overflow);
            },
        };
        let x = match checked_add(x_min, w) {
            Some(x) => x,
            None => {
                proof {
                    assert(spec_grid(x_min, x_max, i as int, n - 1) is None);
                }
                return Err(EngineError::Overflow);
            },
        };
        proof {
            assert(Some(x) == spec_grid(x_min, x_max, i as int, n - 1));
            lemma_spec_grid_ideal(x_min, x_max, i as int, n - 1);
        }
        let y = match d.evaluate(x) {
            Ok(y) => y,
            Err(_) => {
                proof {
                    assert(spec_eval(*d, x) is None);
                }
                return Err(EngineError::Overflow);
            },
        };
        v.push(CurvePoint { x, y });
        i = i + 1;
    }
    proof {
        assert forall|i: int| 0 <= i < n implies ((#[trigger] spec_grid(x_min, x_max, i, n - 1))
            matches Some(x) && spec_eval(*d, x) is Some) by {
            assert(Some(v@[i].x) == spec_grid(x_min, x_max, i, n - 1));
            assert(Some(v@[i].y.exponent) == spec_eval(*d, v@[i].x));
        }
        lemma_grid_ends(x_min, x_max, n - 1);
        lemma_spec_grid_ideal(x_min, x_max, 0, n - 1);
        let den = grid_den(x_min, x_max, n - 1);
        lemma_ratio_same_val(v@[0].x, x_min, grid_num(x_min, x_max, 0, n - 1), den);
        lemma_ratio_same_val(v@[n - 1].x, x_max, grid_num(x_min, x_max, n - 1, n - 1), den);
        if x_min.val_lt(x_max) {
            assert forall|j: int| 0 <= j < n - 1 implies (#[trigger] v@[j]).x.val_lt(
                v@[j + 1].x,
            ) by {
                lemma_grid_step(x_min, x_max, j, j + 1, n - 1);
                lemma_ratio_lt(
                    v@[j].x,
                    v@[j + 1].x,
                    grid_num(x_min, x_max, j, n - 1),
                    grid_num(x_min, x_max, j + 1, n - 1),
                    den,
                );
            }
        }
    }
    Ok(v)
}

/// The midpoint `(a + b) / 2`, exactly as computed: sum, then halving, each
/// reduced.
pub open spec fn spec_mid(a: Rat, b: Rat) -> Option<Rat> {
    match norm_rat(a.num * b.den + b.num * a.den, a.den * b.den) {
        None => None,
        Some(s) => norm_rat(s.num * 1, s.den * 2),
    }
}

/// When the midpoint exists it states the exact fraction `(a + b) / 2` and
/// lies strictly between `a` and `b` whenever `a < b`.
pub proof fn lemma_spec_mid_ideal(a: Rat, b: Rat)
    requires
        a.wf(),
        b.wf(),
    ensures
        spec_mid(a, b) matches Some(x) ==> x.wf() && x.is_ratio(
            a.num * b.den + b.num * a.den,
            (a.den * b.den) * 2,
        ),
        spec_mid(a, b) matches Some(x) ==> a.val_lt(b) ==> a.val_lt(x) && x.val_lt(b),
{
    if spec_mid(a, b) is Some {
        assert(a.den * b.den > 0) by (nonlinear_arith)
            requires
                a.den > 0,
                b.den > 0,
        ;
        lemma_norm_rat_some(a.num * b.den + b.num * a.den, a.den * b.den);
        let s = norm_rat(a.num * b.den + b.num * a.den, a.den * b.den)->Some_0;
        let two = Rat { num: 2, den: 1 };
        assert(s.den * 2 > 0);
        lemma_norm_rat_some(s.num * 1, s.den * 2);
        let x = norm_rat(s.num * 1, s.den * 2)->Some_0;
        assert(x.is_ratio(s.num * two.den, s.den * two.num));
        lemma_div_respects(s, two, x, a.num * b.den + b.num * a.den, a.den * b.den, 2, 1);
        assert(x.is_ratio((a.num * b.den + b.num * a.den) * 1, (a.den * b.den) * 2));
        if a.val_lt(b) {
            assert(a.num * ((a.den * b.den) * 2) < (a.num * b.den + b.num * a.den) * a.den) by (
            nonlinear_arith)
                requires
                    a.num * b.den < b.num * a.den,
                    a.den > 0,
                    b.den > 0,
            ;
            lemma_ratio_lt_cross(
                a,
                x,
                a.num as int,
                a.den as int,
                a.num * b.den + b.num * a.den,
                (a.den * b.den) * 2,
            );
            assert((a.num * b.den + b.num * a.den) * b.den < b.num * ((a.den * b.den) * 2)) by (
            nonlinear_arith)
                requires
                    a.num * b.den < b.num * a.den,
                    a.den > 0,
                    b.den > 0,
            ;
            lemma_ratio_lt_cross(
                x,
                b,
                a.num * b.den + b.num * a.den,
                (a.den * b.den) * 2,
                b.num as int,
                b.den as int,
            );
        }
    }
}

/// A closed fill polygon under the density curve over `[x_min, x_max]`:
/// the corner `(x_min, 0)`, then `n` curve samples strictly inside the
/// range — at the midpoint for `n == 1`, at `x_min + (x_max - x_min) * i /
/// (n + 1)` for `i = 1..n` otherwise — then the corner `(x_max, 0)`.  The
/// corner heights are exactly zero; every interior height is a density
/// value, hence strictly positive.
pub fn fill_polygon(d: &Distribution, x_min: Rat, x_max: Rat, n: usize) -> (r: Result<
    Vec<PolyVertex>,
    EngineError,
>)
    requires
        d.params_wf(),
        x_min.wf(),
        x_max.wf(),
        n + 2 <= i64::MAX,
        n + 2 <= usize::MAX,
    ensures
        r matches Ok(v) ==> v@.len() == n + 2 && v@[0].x == x_min && v@[0].y is Zero && v@[n
            + 1].x == x_max && v@[n + 1].y is Zero,
        r matches Ok(v) ==> forall|i: int|
            1 <= i <= n ==> ((#[trigger] v@[i]).y matches PolyHeight::Curve(dv) && dv.std_dev == d.std_dev
                && Some(dv.exponent) == spec_eval(*d, v@[i].x) && dv.exponent.is_ratio(
                exp_num(*d, v@[i].x),
                exp_den(*d, v@[i].x),
            )),
        r matches Ok(v) ==> n >= 2 ==> forall|i: int|
            1 <= i <= n ==> Some((#[trigger] v@[i]).x) == spec_grid(x_min, x_max, i, n + 1)
                && v@[i].x.is_ratio(
                grid_num(x_min, x_max, i, n + 1),
                grid_den(x_min, x_max, n + 1),
            ),
        r matches Ok(v) ==> n == 1 ==> Some(v@[1].x) == spec_mid(x_min, x_max)
            && v@[1].x.is_ratio(
            x_min.num * x_max.den + x_max.num * x_min.den,
            (x_min.den * x_max.den) * 2,
        ),
        r matches Ok(v) ==> x_min.val_lt(x_max) ==> forall|i: int|
            0 <= i < n + 1 ==> (#[trigger] v@[i]).x.val_lt(v@[i + 1].x),
        r matches Err(e) ==> if d.std_dev.num <= 0 {
            e is InvalidParameter
        } else {
            e is Overflow
        },
        r is Err ==> d.std_dev.num <= 0 || (n == 1 && !(spec_mid(x_min, x_max) matches Some(x)
            && spec_eval(*d, x) is Some)) || (n >= 2 && !(forall|i: int|
            1 <= i <= n ==> ((#[trigger] spec_grid(x_min, x_max, i, n + 1)) matches Some(x)
                && spec_eval(*d, x) is Some))),
{
    if d.std_dev.num <= 0 {
        return Err(EngineError::InvalidParameter);
    }
    let mut v: Vec<PolyVertex> = Vec::new();
    v.push(PolyVertex { x: x_min, y: PolyHeight::Zero });
    if n == 1 {
        let sum = match checked_add(x_min, x_max) {
            Some(s) => s,
            None => {
                proof {
                    assert(spec_mid(x_min, x_max) is None);
                }
                return Err(EngineError::Overflow);
            },
        };
        let mid = match checked_div(sum, Rat { num: 2, den: 1 }) {
            Some(m) => m,
            None => {
                proof {
                    assert(spec_mid(x_min, x_max) is None);
                }
                return Err(EngineError::Overflow);
            },
        };
        proof {
            assert(Some(mid) == spec_mid(x_min, x_max));
            lemma_spec_mid_ideal(x_min, x_max);
        }
        let y = match d.evaluate(mid) {
            Ok(y) => y,
            Err(_) => {
                return Err(EngineError::Overflow);
            },
        };
        v.push(PolyVertex { x: mid, y: PolyHeight::Curve(y) });
    } else if n > 1 {
        let m: i64 = (n + 1) as i64;
        let span = match checked_sub(x_max, x_min) {
            Some(s) => s,
            None => {
                proof {
                    assert(spec_grid(x_min, x_max, 1, n + 1) is None);
                }
                return Err(EngineError::Overflow);
            },
        };
        let mut i: usize = 1;
        while i <= n
            invariant
                1 <= i <= n + 1,
                2 <= n,
                n + 2 <= i64::MAX,
                n + 2 <= usize::MAX,
                m == n + 1,
                d.params_wf(),
                d.std_dev.num > 0,
                x_min.wf(),
                x_max.wf(),
                Some(span) == norm_rat(
                    x_max.num * x_min.den - x_min.num * x_max.den,
                    x_max.den * x_min.den,
                ),
                span.wf(),
                v@.len() == i,
                v@[0].x == x_min && v@[0].y is Zero,
                forall|j: int|
                    1 <= j < i ==> Some((#[trigger] v@[j]).x) == spec_grid(
                        x_min,
                        x_max,
                        j,
                        n + 1,
                    ) && v@[j].x.is_ratio(
                        grid_num(x_min, x_max, j, n + 1),
                        grid_den(x_min, x_max, n + 1),
                    ) && v@[j].x.wf(),
                forall|j: int|
                    1 <= j < i ==> ((#[trigger] v@[j]).y matches PolyHeight::Curve(dv) && dv.std_dev
                        == d.std_dev && Some(dv.exponent) == spec_eval(*d, v@[j].x)
                        && dv.exponent.is_ratio(exp_num(*d, v@[j].x), exp_den(*d, v@[j].x))),
            decreases n + 1 - i,
        {
            let u = match checked_mul(span, Rat::from_int(i as i64)) {
                Some(u) => u,
                None => {
                    proof {
                        assert(spec_grid(x_min, x_max, i as int, n + 1) is None);
                    }
                    return Err(EngineError::Overflow);
                },
            };
            let w = match checked_div(u, Rat::from_int(m)) {
                Some(w) => w,
                None => {
                    proof {
                        assert(spec_grid(x_min, x_max, i as int, n + 1) is None);
                    }
                    return Err(EngineError::Overflow);
                },
            };
            let x = match checked_add(x_min, w) {
                Some(x) => x,
                None => {
                    proof {
                        assert(spec_grid(x_min, x_max, i as int, n + 1) is None);
                    }
                    return Err(EngineError::Overflow);
                },
            };
            proof {
                assert(Some(x) == spec_grid(x_min, x_max, i as int, n + 1));
                lemma_spec_grid_ideal(x_min, x_max, i as int, n + 1);
            }
            let y = match d.evaluate(x) {
                Ok(y) => y,
                Err(_) => {
                    proof {
                        assert(spec_eval(*d, x) is None);
                    }
                    return Err(EngineError::Overflow);
                },
            };
            v.push(PolyVertex { x, y: PolyHeight::Curve(y) });
            i = i + 1;
        }
    }
    v.push(PolyVertex { x: x_max, y: PolyHeight::Zero });
    proof {
        if x_min.val_lt(x_max) {
            if n == 0 {
            } else if n == 1 {
                lemma_spec_mid_ideal(x_min, x_max);
            } else {
                lemma_grid_ends(x_min, x_max, n + 1);
                lemma_spec_grid_ideal(x_min, x_max, 0, n + 1);
                let den = grid_den(x_min, x_max, n + 1);
                assert forall|i: int| 0 <= i < n + 1 implies (#[trigger] v@[i]).x.val_lt(
                    v@[i + 1].x,
                ) by {
                    if i == 0 {
                        lemma_grid_step(x_min, x_max, 0, 1, n + 1);
                        lemma_ratio_lt(
                            x_min,
                            v@[1].x,
                            grid_num(x_min, x_max, 0, n + 1),
                            grid_num(x_min, x_max, 1, n + 1),
                            den,
                        );
                    } else if i == n {
                        lemma_grid_step(x_min, x_max, n as int, n + 1, n + 1);
                        lemma_ratio_lt(
                            v@[n as int].x,
                            x_max,
                            grid_num(x_min, x_max, n as int, n + 1),
                            grid_num(x_min, x_max, n + 1, n + 1),
                            den,
                        );
                    } else {
                        lemma_grid_step(x_min, x_max, i, i + 1, n + 1);
                        lemma_ratio_lt(
                            v@[i].x,
                            v@[i + 1].x,
                            grid_num(x_min, x_max, i, n + 1),
                            grid_num(x_min, x_max, i + 1, n + 1),
                            den,
                        );
                    }
                }
            }
        }
    }
    Ok(v)
}

/// The polygon and the curve use intentionally different grids: with the
/// same bounds and sample count, a shared interior index lands strictly left
/// under the polygon's `i / (n + 1)` spacing of where the curve's
/// `i / (n - 1)` spacing puts it.
pub proof fn law_fill_spacing_differs(a: Rat, b: Rat, i: int, n: int, xf: Rat, xc: Rat)
    requires
        a.wf(),
        b.wf(),
        a.val_lt(b),
        n >= 2,
        1 <= i <= n - 1,
        n + 1 <= i64::MAX,
        spec_grid(a, b, i, n + 1) == Some(xf),
        spec_grid(a, b, i, n - 1) == Some(xc),
    ensures
        xf.val_lt(xc),
{
    lemma_spec_grid_ideal(a, b, i, n + 1);
    lemma_spec_grid_ideal(a, b, i, n - 1);
    let dn = b.num * a.den - a.num * b.den;
    let dd = b.den * a.den;
    let m1 = n + 1;
    let m2 = n - 1;
    let bb = (dn * i) * a.den;
    let a1 = a.num * (dd * m1);
    let a2 = a.num * (dd * m2);
    let e1 = a.den * (dd * m1);
    let e2 = a.den * (dd * m2);
    assert(dn > 0);
    assert(dd > 0) by (nonlinear_arith)
        requires
            dd == b.den * a.den,
            a.den > 0,
            b.den > 0,
    ;
    lemma_distrib(a1, bb, e2);
    lemma_distrib(a2, bb, e1);
    assert(a1 * e2 == a2 * e1) by (nonlinear_arith)
        requires
            a1 == a.num * (dd * m1),
            a2 == a.num * (dd * m2),
            e1 == a.den * (dd * m1),
            e2 == a.den * (dd * m2),
    ;
    assert(bb > 0 && e2 < e1) by (nonlinear_arith)
        requires
            bb == (dn * i) * a.den,
            e1 == a.den * (dd * m1),
            e2 == a.den * (dd * m2),
            dn > 0,
            i >= 1,
            a.den > 0,
            dd > 0,
            m2 < m1,
            m2 >= 1,
    ;
    assert(bb * e2 < bb * e1) by (nonlinear_arith)
        requires
            bb > 0,
            e2 < e1,
    ;
    assert(grid_num(a, b, i, m1) * grid_den(a, b, m2) < grid_num(a, b, i, m2) * grid_den(
        a,
        b,
        m1,
    ));
    assert(grid_den(a, b, m2) > 0 && grid_den(a, b, m1) > 0);
    lemma_ratio_lt_cross(
        xf,
        xc,
        grid_num(a, b, i, m1),
        grid_den(a, b, m1),
        grid_num(a, b, i, m2),
        grid_den(a, b, m2),
    );
}

} // verus!
