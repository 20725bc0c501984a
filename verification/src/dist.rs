//! Gaussian distributions and the precision-weighted fusion algebra.
//!
//! A distribution is one Gaussian node: a leaf, whose mean and standard
//! deviation a caller sets directly, or a product, whose parameters are
//! derived from its parents by Bayesian fusion (the renormalized product of
//! the parents' densities).  Parameters are exact rationals; the one
//! approximation in the whole algebra is the square root taken for a product
//! node's standard deviation, which lands on the `1 / SQRT_SCALE` grid.

use vstd::prelude::*;
use crate::rat::{Rat, norm_rat, checked_add, checked_sub, checked_mul, checked_div, checked_neg,
    lemma_add_respects, lemma_neg_respects,
    lemma_mul_respects, lemma_div_respects, lemma_norm_rat_some, lemma_ratio_pos,
    lemma_ratio_trans, lemma_ratio_lt, lemma_ratio_same_val, lemma_mul4_shuffle, lemma_mul_comm,
    lemma_distrib,
    sqrt_rat, sqrt_k, SQRT_SCALE};
use vstd::string::StringExecFns;

verus! {

/// The error conditions the engine reports.
#[derive(Debug)]
pub enum EngineError {
    /// A non-positive standard deviation was handed to evaluation or creation.
    InvalidParameter,
    /// Fusion was requested over fewer than two resolvable parents.
    InsufficientParents,
    /// Curve sampling was requested with fewer than two points.
    InvalidSampleCount,
    /// An exact result cannot be represented in 64-bit fractions.
    Overflow,
    /// A snapshot could not be parsed; carries a human-readable message.
    DecodeError { message: String },
}

/// One Gaussian node.
pub struct Distribution {
    /// Stable identifier, assigned once by the graph and never reused.
    pub id: u32,
    /// Display label; arbitrary text, no uniqueness constraint.
    pub name: String,
    /// The mean.
    pub mean: Rat,
    /// The standard deviation; meaningful values are positive.
    pub std_dev: Rat,
    /// Parents of a product node, in creation order; empty for a leaf.
    pub parent_ids: Vec<u32>,
    /// Routes behavior: a product's parameters are derived, never edited.
    pub is_product: bool,
}

impl Distribution {
    /// Machine validity of the parameter fields.
    pub open spec fn params_wf(self) -> bool {
        self.mean.wf() && self.std_dev.wf()
    }

    /// A usable Gaussian: valid fields and a positive standard deviation.
    pub open spec fn valid(self) -> bool {
        self.params_wf() && self.std_dev.num > 0
    }

    /// Field-for-field value equality.
    pub open spec fn eqv(self, o: Distribution) -> bool {
        self.id == o.id && self.name@ == o.name@ && self.mean == o.mean && self.std_dev
            == o.std_dev && self.parent_ids@ == o.parent_ids@ && self.is_product == o.is_product
    }

    /// An identical node (the label and edge list are copied).
    pub fn duplicate(&self) -> (r: Distribution)
        ensures
            r.eqv(*self),
            r.mean == self.mean,
            r.std_dev == self.std_dev,
            r.id == self.id,
            r.is_product == self.is_product,
    {
        Distribution {
            id: self.id,
            name: self.name.clone(),
            mean: self.mean,
            std_dev: self.std_dev,
            parent_ids: clone_id_vec(&self.parent_ids),
            is_product: self.is_product,
        }
    }
}

/// A copy of a list of identifiers.
pub fn clone_id_vec(v: &Vec<u32>) -> (r: Vec<u32>)
    ensures
        r@ == v@,
{
    let mut r: Vec<u32> = Vec::new();
    let mut i: usize = 0;
    while i < v.len()
        invariant
            0 <= i <= v.len(),
            r@ == v@.subrange(0, i as int),
        decreases v.len() - i,
    {
        r.push(v[i]);
        i = i + 1;
        proof {
            assert(r@ == v@.subrange(0, i as int));
        }
    }
    proof {
        assert(v@.subrange(0, v.len() as int) == v@);
    }
    r
}

/// The exact precision sum of the first `i` parents, as an unreduced
/// fraction: the sum of `1 / sigma^2`.
pub open spec fn psum_frac(s: Seq<Distribution>, i: int) -> (int, int)
    decreases i,
{
    if i <= 0 {
        (0int, 1int)
    } else {
        let (n, d) = psum_frac(s, i - 1);
        let p = s[i - 1];
        (
            n * (p.std_dev.num * p.std_dev.num) + (p.std_dev.den * p.std_dev.den) * d,
            d * (p.std_dev.num * p.std_dev.num),
        )
    }
}

/// The exact precision-weighted mean sum of the first `i` parents, as an
/// unreduced fraction: the sum of `mu / sigma^2`.
pub open spec fn wsum_frac(s: Seq<Distribution>, i: int) -> (int, int)
    decreases i,
{
    if i <= 0 {
        (0int, 1int)
    } else {
        let (n, d) = wsum_frac(s, i - 1);
        let p = s[i - 1];
        (
            n * (p.mean.den * (p.std_dev.num * p.std_dev.num)) + (p.mean.num * (p.std_dev.den
                * p.std_dev.den)) * d,
            d * (p.mean.den * (p.std_dev.num * p.std_dev.num)),
        )
    }
}

/// The reduced precision `1 / sigma^2`, as computed: square, then reciprocal.
pub open spec fn spec_precision(sd: Rat) -> Option<Rat> {
    match norm_rat(sd.num * sd.num, sd.den * sd.den) {
        Some(s2) => norm_rat(s2.den as int, s2.num as int),
        None => None,
    }
}

/// The two running sums after the first `i` parents, exactly as the
/// executable fusion computes them: `None` once any step cannot be
/// represented.
pub open spec fn fuse_sums(s: Seq<Distribution>, i: int) -> Option<(Rat, Rat)>
    decreases i,
{
    if i <= 0 {
        Some((Rat { num: 0, den: 1 }, Rat { num: 0, den: 1 }))
    } else {
        match fuse_sums(s, i - 1) {
            None => None,
            Some((ps, ws)) => {
                let p = s[i - 1];
                match spec_precision(p.std_dev) {
                    None => None,
                    Some(prec) => match norm_rat(
                        ps.num * prec.den + prec.num * ps.den,
                        ps.den * prec.den,
                    ) {
                        None => None,
                        Some(ps2) => match norm_rat(
                            p.mean.num * prec.num,
                            p.mean.den * prec.den,
                        ) {
                            None => None,
                            Some(w) => match norm_rat(
                                ws.num * w.den + w.num * ws.den,
                                ws.den * w.den,
                            ) {
                                None => None,
                                Some(ws2) => Some((ps2, ws2)),
                            },
                        },
                    },
                }
            },
        }
    }
}

/// What fusion returns: the mean and variance of the renormalized product of
/// the parents' densities, reduced, or `None` where a step cannot be
/// represented.  An empty parent list yields the defined default `(0, 1)`.
pub open spec fn spec_fuse(s: Seq<Distribution>) -> Option<(Rat, Rat)> {
    if s.len() == 0 {
        Some((Rat { num: 0, den: 1 }, Rat { num: 1, den: 1 }))
    } else {
        match fuse_sums(s, s.len() as int) {
            None => None,
            Some((ps, ws)) => match norm_rat(ws.num * ps.den, ws.den * ps.num) {
                None => None,
                Some(m) => match norm_rat(ps.den as int, ps.num as int) {
                    None => None,
                    Some(v) => Some((m, v)),
                },
            },
        }
    }
}

/// All of the first `i` parents are valid Gaussians.
pub open spec fn parents_valid(s: Seq<Distribution>, i: int) -> bool {
    forall|k: int| 0 <= k < i ==> (#[trigger] s[k]).valid()
}

/// The exact precision and weighted sums are positive fractions.
pub proof fn lemma_frac_pos(s: Seq<Distribution>, i: int)
    requires
        0 <= i <= s.len(),
        parents_valid(s, i),
    ensures
        psum_frac(s, i).1 > 0,
        psum_frac(s, i).0 >= 0,
        i > 0 ==> psum_frac(s, i).0 > 0,
        wsum_frac(s, i).1 > 0,
    decreases i,
{
    if i > 0 {
        lemma_frac_pos(s, i - 1);
        let p = s[i - 1];
        let (n, d) = psum_frac(s, i - 1);
        assert(p.valid());
        assert(p.std_dev.num * p.std_dev.num > 0 && p.std_dev.den * p.std_dev.den > 0)
            by (nonlinear_arith)
            requires
                p.std_dev.num > 0,
                p.std_dev.den > 0,
        ;
        assert(n * (p.std_dev.num * p.std_dev.num) + (p.std_dev.den * p.std_dev.den) * d > 0
            && d * (p.std_dev.num * p.std_dev.num) > 0) by (nonlinear_arith)
            requires
                n >= 0,
                d > 0,
                p.std_dev.num * p.std_dev.num > 0,
                p.std_dev.den * p.std_dev.den > 0,
        ;
        let (wn, wd) = wsum_frac(s, i - 1);
        assert(wd * (p.mean.den * (p.std_dev.num * p.std_dev.num)) > 0) by (nonlinear_arith)
            requires
                wd > 0,
                p.mean.den > 0,
                p.std_dev.num * p.std_dev.num > 0,
        ;
    }
}

/// When the running sums exist they are well-formed and state exactly the
/// unreduced precision and weighted sums.
pub proof fn lemma_fuse_sums_ideal(s: Seq<Distribution>, i: int)
    requires
        0 <= i <= s.len(),
        parents_valid(s, i),
    ensures
        fuse_sums(s, i) matches Some((ps, ws)) ==> ps.wf() && ws.wf() && ps.is_ratio(
            psum_frac(s, i).0,
            psum_frac(s, i).1,
        ) && ws.is_ratio(wsum_frac(s, i).0, wsum_frac(s, i).1),
    decreases i,
{
    lemma_frac_pos(s, i);
    if i <= 0 {
        assert(fuse_sums(s, i) == Some((Rat { num: 0, den: 1 }, Rat { num: 0, den: 1 })));
    } else {
        lemma_fuse_sums_ideal(s, i - 1);
        lemma_frac_pos(s, i - 1);
        if fuse_sums(s, i) is Some {
            let (ps, ws) = fuse_sums(s, i - 1)->Some_0;
            let p = s[i - 1];
            let (pn, pd) = psum_frac(s, i - 1);
            let (wn, wd) = wsum_frac(s, i - 1);
            assert(p.valid());
            let sn = p.std_dev.num as int;
            let sd = p.std_dev.den as int;
            assert(sn * sn > 0 && sd * sd > 0) by (nonlinear_arith)
                requires
                    sn > 0,
                    sd > 0,
            ;
            // the squared deviation
            lemma_norm_rat_some(sn * sn, sd * sd);
            let s2 = norm_rat(sn * sn, sd * sd)->Some_0;
            assert(s2.num > 0);
            // the precision
            lemma_norm_rat_some(s2.den as int, s2.num as int);
            let prec = spec_precision(p.std_dev)->Some_0;
            assert(prec.is_ratio(s2.den as int, s2.num as int));
            lemma_div_respects(
                Rat { num: 1, den: 1 },
                s2,
                prec,
                1,
                1,
                sn * sn,
                sd * sd,
            );
            assert(prec.is_ratio(1 * (sd * sd), 1 * (sn * sn)));
            assert(prec.is_ratio(sd * sd, sn * sn));
            // the new precision sum
            assert(ps.den * prec.den > 0) by (nonlinear_arith)
                requires
                    ps.den > 0,
                    prec.den > 0,
            ;
            lemma_norm_rat_some(ps.num * prec.den + prec.num * ps.den, ps.den * prec.den);
            let ps2 = norm_rat(ps.num * prec.den + prec.num * ps.den, ps.den * prec.den)->Some_0;
            lemma_add_respects(ps, prec, ps2, pn, pd, sd * sd, sn * sn);
            assert(ps2.is_ratio(pn * (sn * sn) + (sd * sd) * pd, pd * (sn * sn)));
            // the weighted term
            assert(p.mean.den * prec.den > 0) by (nonlinear_arith)
                requires
                    p.mean.den > 0,
                    prec.den > 0,
            ;
            lemma_norm_rat_some(p.mean.num * prec.num, p.mean.den * prec.den);
            let w = norm_rat(p.mean.num * prec.num, p.mean.den * prec.den)->Some_0;
            lemma_mul_respects(p.mean, prec, w, p.mean.num as int, p.mean.den as int, sd * sd,
                sn * sn);
            assert(w.is_ratio(p.mean.num * (sd * sd), p.mean.den * (sn * sn)));
            // the new weighted sum
            assert(ws.den * w.den > 0) by (nonlinear_arith)
                requires
                    ws.den > 0,
                    w.den > 0,
            ;
            lemma_norm_rat_some(ws.num * w.den + w.num * ws.den, ws.den * w.den);
            let ws2 = norm_rat(ws.num * w.den + w.num * ws.den, ws.den * w.den)->Some_0;
            assert(p.mean.den * (sn * sn) > 0) by (nonlinear_arith)
                requires
                    p.mean.den > 0,
                    sn * sn > 0,
            ;
            lemma_add_respects(ws, w, ws2, wn, wd, p.mean.num * (sd * sd), p.mean.den * (sn
                * sn));
            assert(ws2.is_ratio(wn * (p.mean.den * (sn * sn)) + (p.mean.num * (sd * sd)) * wd,
                wd * (p.mean.den * (sn * sn))));
            assert(fuse_sums(s, i) == Some((ps2, ws2)));
        }
    }
}

/// A failed prefix never recovers: once the sums cannot be represented at
/// step `i`, they cannot at any later step.
pub proof fn lemma_fuse_sums_none(s: Seq<Distribution>, i: int, j: int)
    requires
        0 <= i <= j,
        fuse_sums(s, i) is None,
    ensures
        fuse_sums(s, j) is None,
    decreases j - i,
{
    if j > i {
        lemma_fuse_sums_none(s, i, j - 1);
    }
}

/// Precision-weighted fusion of a list of Gaussians.
///
/// For a non-empty list this returns the exact mean and variance of the
/// renormalized product of the parents' densities: with precisions
/// `p_k = 1 / sigma_k^2`, the mean is `sum(mu_k * p_k) / sum(p_k)` and the
/// variance is `1 / sum(p_k)`.  The empty list yields the defined default
/// `(0, 1)`.  `Err(Overflow)` reports exactly the inputs whose reduced
/// intermediate fractions do not fit 64 bits.
pub fn multiply_gaussians(parents: &Vec<Distribution>) -> (r: Result<(Rat, Rat), EngineError>)
    requires
        parents_valid(parents@, parents@.len() as int),
    ensures
        r matches Ok(mv) ==> spec_fuse(parents@) == Some((mv.0, mv.1)),
        r is Err ==> spec_fuse(parents@) is None,
        r matches Err(e) ==> e is Overflow,
        r matches Ok(mv) ==> mv.0.wf() && mv.1.wf() && mv.1.num > 0,
        r matches Ok(mv) ==> parents@.len() == 0 ==> mv.0 == (Rat { num: 0, den: 1 }) && mv.1
            == (Rat { num: 1, den: 1 }),
        r matches Ok(mv) ==> parents@.len() > 0 ==> mv.0.is_ratio(
            wsum_frac(parents@, parents@.len() as int).0 * psum_frac(
                parents@,
                parents@.len() as int,
            ).1,
            wsum_frac(parents@, parents@.len() as int).1 * psum_frac(
                parents@,
                parents@.len() as int,
            ).0,
        ) && mv.1.is_ratio(
            psum_frac(parents@, parents@.len() as int).1,
            psum_frac(parents@, parents@.len() as int).0,
        ),
{
    let ghost s = parents@;
    let n = parents.len();
    if n == 0 {
        return Ok((Rat::zero(), Rat::one()));
    }
    let mut psum = Rat::zero();
    let mut wsum = Rat::zero();
    let mut j: usize = 0;
    while j < n
        invariant
            0 <= j <= n,
            n == s.len(),
            s == parents@,
            parents_valid(s, n as int),
            fuse_sums(s, j as int) == Some((psum, wsum)),
            psum.wf(),
            wsum.wf(),
        decreases n - j,
    {
        let p = &parents[j];
        assert(p.valid());
        let s2 = match checked_mul(p.std_dev, p.std_dev) {
            Some(x) => x,
            None => {
                proof {
                    assert(fuse_sums(s, j + 1) is None);
                    lemma_fuse_sums_none(s, j + 1, n as int);
                }
                return Err(EngineError::Overflow);
            },
        };
        proof {
            assert(p.std_dev.num * p.std_dev.num > 0 && p.std_dev.den * p.std_dev.den > 0) by (
            nonlinear_arith)
                requires
                    p.std_dev.num > 0,
                    p.std_dev.den > 0,
            ;
            lemma_ratio_pos(s2, p.std_dev.num * p.std_dev.num, p.std_dev.den * p.std_dev.den);
        }
        let prec = match checked_div(Rat::one(), s2) {
            Some(x) => x,
            None => {
                proof {
                    assert(1 * (s2.den as int) == s2.den as int && 1 * (s2.num as int)
                        == s2.num as int);
                    assert(fuse_sums(s, j + 1) is None);
                    lemma_fuse_sums_none(s, j + 1, n as int);
                }
                return Err(EngineError::Overflow);
            },
        };
        proof {
            assert(1 * (s2.den as int) == s2.den as int && 1 * (s2.num as int) == s2.num as int);
            assert(Some(prec) == spec_precision(p.std_dev));
        }
        let psum2 = match checked_add(psum, prec) {
            Some(x) => x,
            None => {
                proof {
                    assert(fuse_sums(s, j + 1) is None);
                    lemma_fuse_sums_none(s, j + 1, n as int);
                }
                return Err(EngineError::Overflow);
            },
        };
        let w = match checked_mul(p.mean, prec) {
            Some(x) => x,
            None => {
                proof {
                    assert(fuse_sums(s, j + 1) is None);
                    lemma_fuse_sums_none(s, j + 1, n as int);
                }
                return Err(EngineError::Overflow);
            },
        };
        let wsum2 = match checked_add(wsum, w) {
            Some(x) => x,
            None => {
                proof {
                    assert(fuse_sums(s, j + 1) is None);
                    lemma_fuse_sums_none(s, j + 1, n as int);
                }
                return Err(EngineError::Overflow);
            },
        };
        proof {
            assert(fuse_sums(s, j + 1) == Some((psum2, wsum2)));
        }
        psum = psum2;
        wsum = wsum2;
        j = j + 1;
    }
    proof {
        lemma_fuse_sums_ideal(s, n as int);
        lemma_frac_pos(s, n as int);
        lemma_ratio_pos(psum, psum_frac(s, n as int).0, psum_frac(s, n as int).1);
    }
    let mean = match checked_div(wsum, psum) {
        Some(x) => x,
        None => {
            return Err(EngineError::Overflow);
        },
    };
    let variance = match checked_div(Rat::one(), psum) {
        Some(x) => x,
        None => {
            return Err(EngineError::Overflow);
        },
    };
    proof {
        assert(1 * (psum.den as int) == psum.den as int && 1 * (psum.num as int)
            == psum.num as int);
        lemma_div_respects(
            wsum,
            psum,
            mean,
            wsum_frac(s, n as int).0,
            wsum_frac(s, n as int).1,
            psum_frac(s, n as int).0,
            psum_frac(s, n as int).1,
        );
        lemma_div_respects(
            Rat { num: 1, den: 1 },
            psum,
            variance,
            1,
            1,
            psum_frac(s, n as int).0,
            psum_frac(s, n as int).1,
        );
        assert(variance.is_ratio(1 * psum_frac(s, n as int).1, 1 * psum_frac(s, n as int).0));
        lemma_ratio_pos(variance, psum_frac(s, n as int).1, psum_frac(s, n as int).0);
    }
    Ok((mean, variance))
}

impl Distribution {
    /// A fresh leaf with the given parameters; rejects a non-positive
    /// standard deviation.
    pub fn new(id: u32, name: String, mean: Rat, std_dev: Rat) -> (r: Result<
        Distribution,
        EngineError,
    >)
        requires
            mean.wf(),
            std_dev.wf(),
        ensures
            r is Ok <==> std_dev.num > 0,
            r matches Ok(d) ==> d.id == id && d.name@ == name@ && d.mean == mean && d.std_dev
                == std_dev && d.parent_ids@ == Seq::<u32>::empty() && d.is_product == false
                && d.valid(),
            r matches Err(e) ==> e is InvalidParameter,
    {
        if std_dev.num <= 0 {
            return Err(EngineError::InvalidParameter);
        }
        Ok(
            Distribution {
                id,
                name,
                mean,
                std_dev,
                parent_ids: Vec::new(),
                is_product: false,
            },
        )
    }

    /// A fresh product node over the given parents: its mean and variance
    /// come from `multiply_gaussians`, its standard deviation is the square
    /// root of that variance on the `1 / SQRT_SCALE` grid, and the edge list
    /// is stored verbatim.
    pub fn new_product(
        id: u32,
        name: String,
        parent_ids: Vec<u32>,
        parents: &Vec<Distribution>,
    ) -> (r: Result<Distribution, EngineError>)
        requires
            parents_valid(parents@, parents@.len() as int),
        ensures
            r is Ok <==> spec_fuse(parents@) is Some,
            r matches Ok(d) ==> spec_fuse(parents@) matches Some(mv) && d.mean == mv.0 && Some(
                d.std_dev,
            ) == norm_rat(sqrt_k(mv.1), SQRT_SCALE as int),
            r matches Ok(d) ==> d.id == id && d.name@ == name@ && d.parent_ids@ == parent_ids@
                && d.is_product == true && d.valid(),
            r matches Err(e) ==> e is Overflow,
    {
        let mv = match multiply_gaussians(parents) {
            Ok(mv) => mv,
            Err(e) => {
                return Err(e);
            },
        };
        let std_dev = sqrt_rat(mv.1);
        Ok(
            Distribution {
                id,
                name,
                mean: mv.0,
                std_dev,
                parent_ids,
                is_product: true,
            },
        )
    }
}

impl Default for Distribution {
    /// The standard normal, labelled as the first Gaussian.
    fn default() -> (d: Distribution)
        ensures
            d.id == 0,
            d.name@ == "Gaussian 1"@,
            d.mean == (Rat { num: 0, den: 1 }),
            d.std_dev == (Rat { num: 1, den: 1 }),
            d.parent_ids@ == Seq::<u32>::empty(),
            d.is_product == false,
            d.valid(),
    {
        Distribution {
            id: 0,
            name: String::from_str("Gaussian 1"),
            mean: Rat { num: 0, den: 1 },
            std_dev: Rat { num: 1, den: 1 },
            parent_ids: Vec::new(),
            is_product: false,
        }
    }
}

/// The marker at `k` standard deviations from the mean, exactly as computed:
/// `mean + k * std_dev`, reduced at each step.
pub open spec fn spec_marker(d: Distribution, k: int) -> Option<Rat> {
    match norm_rat(k * d.std_dev.num, 1 * d.std_dev.den) {
        Some(t) => norm_rat(d.mean.num * t.den + t.num * d.mean.den, d.mean.den * t.den),
        None => None,
    }
}

/// The unreduced numerator of the marker at `k` standard deviations, over
/// the common denominator `mean.den * std_dev.den`.
pub open spec fn marker_num(d: Distribution, k: int) -> int {
    d.mean.num * d.std_dev.den + (k * d.std_dev.num) * d.mean.den
}

impl Distribution {
    /// The seven standard-deviation markers
    /// `[mean - 3s, mean - 2s, mean - s, mean, mean + s, mean + 2s, mean + 3s]`,
    /// ascending, evenly spaced by the standard deviation; index 3 is the
    /// mean.
    pub fn get_std_markers(&self) -> (r: Result<Vec<Rat>, EngineError>)
        requires
            self.valid(),
        ensures
            r matches Ok(v) ==> v@.len() == 7 && forall|k: int|
                0 <= k < 7 ==> Some(#[trigger] v@[k]) == spec_marker(*self, k - 3),
            r matches Ok(v) ==> forall|k: int|
                0 <= k < 7 ==> (#[trigger] v@[k]).wf() && v@[k].is_ratio(
                    marker_num(*self, k - 3),
                    self.mean.den * self.std_dev.den,
                ),
            r matches Ok(v) ==> (forall|k: int|
                0 <= k < 6 ==> (#[trigger] v@[k]).val_lt(v@[k + 1])) && v@[3].val_eq(self.mean),
            r is Err ==> exists|k: int| -3 <= k <= 3 && (#[trigger] spec_marker(*self, k))
                is None,
            r matches Err(e) ==> e is Overflow,
    {
        let mut v: Vec<Rat> = Vec::new();
        let mut k: i64 = -3;
        let ghost me = *self;
        while k <= 3
        invariant
            -3 <= k <= 4,
            me == *self,
            me.valid(),
            v@.len() == k + 3,
            forall|j: int| 0 <= j < v@.len() ==> Some(#[trigger] v@[j]) == spec_marker(me, j - 3),
            forall|j: int|
                0 <= j < v@.len() ==> (#[trigger] v@[j]).wf() && v@[j].is_ratio(
                    marker_num(me, j - 3),
                    me.mean.den * me.std_dev.den,
                ),
        decreases 4 - k,
        {
            let kr = Rat::from_int(k);
            let t = match checked_mul(kr, self.std_dev) {
                Some(t) => t,
                None => {
                    proof {
                        assert(spec_marker(me, k as int) is None);
                    }
                    return Err(EngineError::Overflow);
                },
            };
            let m = match checked_add(self.mean, t) {
                Some(m) => m,
                None => {
                    proof {
                        assert(spec_marker(me, k as int) is None);
                    }
                    return Err(EngineError::Overflow);
                },
            };
            proof {
                assert(Some(m) == spec_marker(me, k as int));
                lemma_mul_respects(kr, me.std_dev, t, k as int, 1, me.std_dev.num as int,
                    me.std_dev.den as int);
                assert(t.is_ratio((k as int) * me.std_dev.num, 1 * me.std_dev.den));
                lemma_add_respects(me.mean, t, m, me.mean.num as int, me.mean.den as int, (
                k as int) * me.std_dev.num, me.std_dev.den as int);
                assert(m.is_ratio(marker_num(me, k as int), me.mean.den * me.std_dev.den));
            }
            v.push(m);
            k = k + 1;
        }
        proof {
            let den = me.mean.den * me.std_dev.den;
            assert(me.mean.den * me.std_dev.den > 0) by (nonlinear_arith)
                requires
                    me.mean.den > 0,
                    me.std_dev.den > 0,
            ;
            assert forall|j: int| 0 <= j < 6 implies (#[trigger] v@[j]).val_lt(v@[j + 1]) by {
                assert(marker_num(me, j - 3) < marker_num(me, j - 2)) by (nonlinear_arith)
                    requires
                        me.std_dev.num > 0,
                        me.mean.den > 0,
                        marker_num(me, j - 3) == me.mean.num * me.std_dev.den + ((j - 3)
                            * me.std_dev.num) * me.mean.den,
                        marker_num(me, j - 2) == me.mean.num * me.std_dev.den + ((j - 2)
                            * me.std_dev.num) * me.mean.den,
                ;
                lemma_ratio_lt(v@[j], v@[j + 1], marker_num(me, j - 3), marker_num(me, j - 2),
                    den);
            }
            let v3 = v@[3];
            assert(v3.is_ratio(marker_num(me, 0), den));
            assert(marker_num(me, 0) * me.mean.den == me.mean.num * den) by (nonlinear_arith)
                requires
                    marker_num(me, 0) == me.mean.num * me.std_dev.den + (0 * me.std_dev.num)
                        * me.mean.den,
                    den == me.mean.den * me.std_dev.den,
            ;
            lemma_ratio_trans(v3, marker_num(me, 0), den, me.mean.num as int, me.mean.den as int);
            assert(me.mean.is_ratio(me.mean.num as int, me.mean.den as int));
            lemma_ratio_same_val(v3, me.mean, me.mean.num as int, me.mean.den as int);
        }
        Ok(v)
    }
}

/// The fusion result depends only on the parents' means and standard
/// deviations.
pub proof fn lemma_fuse_sums_same_params(s1: Seq<Distribution>, s2: Seq<Distribution>, i: int)
    requires
        s1.len() == s2.len(),
        forall|k: int|
            0 <= k < s1.len() ==> (#[trigger] s1[k]).mean == s2[k].mean && s1[k].std_dev
                == s2[k].std_dev,
        0 <= i <= s1.len(),
    ensures
        fuse_sums(s1, i) == fuse_sums(s2, i),
    decreases i,
{
    if i > 0 {
        lemma_fuse_sums_same_params(s1, s2, i - 1);
    }
}

/// The fusion result depends only on the parents' means and standard
/// deviations.
pub proof fn lemma_spec_fuse_same_params(s1: Seq<Distribution>, s2: Seq<Distribution>)
    requires
        s1.len() == s2.len(),
        forall|k: int|
            0 <= k < s1.len() ==> (#[trigger] s1[k]).mean == s2[k].mean && s1[k].std_dev
                == s2[k].std_dev,
    ensures
        spec_fuse(s1) == spec_fuse(s2),
{
    lemma_fuse_sums_same_params(s1, s2, s1.len() as int);
}

/// A density value in exact symbolic form: the density of the Gaussian at
/// the evaluated point is `exp(exponent) / (std_dev * sqrt(2 * pi))`.  The
/// two rational fields determine the value exactly; only the final
/// transcendental step is left to the caller.
#[derive(Clone, Copy, Debug, PartialEq, Eq, Structural)]
pub struct DensityValue {
    /// The distribution's standard deviation, fixing the coefficient.
    pub std_dev: Rat,
    /// The exact exponent `-(x - mean)^2 / (2 * std_dev^2)`.
    pub exponent: Rat,
}

/// The evaluation exponent, exactly as computed: difference, square, squared
/// deviation, doubling, quotient, negation, each reduced.
pub open spec fn spec_eval(d: Distribution, x: Rat) -> Option<Rat> {
    match norm_rat(x.num * d.mean.den - d.mean.num * x.den, x.den * d.mean.den) {
        None => None,
        Some(diff) => match norm_rat(diff.num * diff.num, diff.den * diff.den) {
            None => None,
            Some(sq) => match norm_rat(
                d.std_dev.num * d.std_dev.num,
                d.std_dev.den * d.std_dev.den,
            ) {
                None => None,
                Some(s2) => match norm_rat(2 * s2.num, 1 * s2.den) {
                    None => None,
                    Some(t2) => match norm_rat(sq.num * t2.den, sq.den * t2.num) {
                        None => None,
                        Some(q) => norm_rat(-(q.num as int), q.den as int),
                    },
                },
            },
        },
    }
}

/// Numerator of the exact exponent `-(x - mean)^2 / (2 * std_dev^2)`.
pub open spec fn exp_num(d: Distribution, x: Rat) -> int {
    -(((x.num * d.mean.den - d.mean.num * x.den) * (x.num * d.mean.den - d.mean.num * x.den)) * (
    d.std_dev.den * d.std_dev.den))
}

/// Denominator of the exact exponent.
pub open spec fn exp_den(d: Distribution, x: Rat) -> int {
    ((x.den * d.mean.den) * (x.den * d.mean.den)) * (2 * (d.std_dev.num * d.std_dev.num))
}

/// When the exponent exists it is well-formed and states the exact fraction
/// `-(x - mean)^2 / (2 * std_dev^2)`.
pub proof fn lemma_spec_eval_ideal(d: Distribution, x: Rat)
    requires
        d.valid(),
        x.wf(),
    ensures
        spec_eval(d, x) matches Some(q) ==> q.wf() && q.is_ratio(exp_num(d, x), exp_den(d, x)),
        exp_den(d, x) > 0,
{
    let mn = d.mean.num as int;
    let md = d.mean.den as int;
    let sn = d.std_dev.num as int;
    let sd = d.std_dev.den as int;
    let dn = x.num * md - mn * x.den;
    let dd = x.den * md;
    assert(dd > 0 && sn * sn > 0 && sd * sd > 0) by (nonlinear_arith)
        requires
            dd == x.den * md,
            x.den > 0,
            md > 0,
            sn > 0,
            sd > 0,
    ;
    assert(((x.den * md) * (x.den * md)) * (2 * (sn * sn)) > 0) by (nonlinear_arith)
        requires
            x.den * md > 0,
            sn * sn > 0,
    ;
    if spec_eval(d, x) is Some {
        lemma_norm_rat_some(dn, dd);
        let diff = norm_rat(dn, dd)->Some_0;
        assert(diff.den * diff.den > 0) by (nonlinear_arith)
            requires
                diff.den > 0,
        ;
        lemma_norm_rat_some(diff.num * diff.num, diff.den * diff.den);
        let sq = norm_rat(diff.num * diff.num, diff.den * diff.den)->Some_0;
        lemma_mul_respects(diff, diff, sq, dn, dd, dn, dd);
        assert(sq.is_ratio(dn * dn, dd * dd));
        lemma_norm_rat_some(sn * sn, sd * sd);
        let s2 = norm_rat(sn * sn, sd * sd)->Some_0;
        assert(s2.num > 0);
        lemma_norm_rat_some(2 * s2.num, 1 * s2.den);
        let t2 = norm_rat(2 * s2.num, 1 * s2.den)->Some_0;
        let two = Rat { num: 2, den: 1 };
        assert(t2.is_ratio(two.num * s2.num, two.den * s2.den));
        lemma_mul_respects(two, s2, t2, 2, 1, sn * sn, sd * sd);
        assert(t2.is_ratio(2 * (sn * sn), 1 * (sd * sd)));
        assert(t2.is_ratio(2 * (sn * sn), sd * sd));
        assert(2 * (sn * sn) > 0);
        lemma_ratio_pos(t2, 2 * (sn * sn), sd * sd);
        assert(sq.den * t2.num > 0) by (nonlinear_arith)
            requires
                sq.den > 0,
                t2.num > 0,
        ;
        lemma_norm_rat_some(sq.num * t2.den, sq.den * t2.num);
        let q0 = norm_rat(sq.num * t2.den, sq.den * t2.num)->Some_0;
        assert(dd * dd > 0) by (nonlinear_arith)
            requires
                dd > 0,
        ;
        lemma_div_respects(sq, t2, q0, dn * dn, dd * dd, 2 * (sn * sn), sd * sd);
        assert(q0.is_ratio((dn * dn) * (sd * sd), (dd * dd) * (2 * (sn * sn))));
        lemma_norm_rat_some(-(q0.num as int), q0.den as int);
        let q = norm_rat(-(q0.num as int), q0.den as int)->Some_0;
        assert((dd * dd) * (2 * (sn * sn)) != 0);
        lemma_neg_respects(q0, q, (dn * dn) * (sd * sd), (dd * dd) * (2 * (sn * sn)));
        assert(q.is_ratio(-((dn * dn) * (sd * sd)), (dd * dd) * (2 * (sn * sn))));
        lemma_mul4_shuffle(x.den as int, md, x.den as int, md);
        assert((x.den * md) * (x.den * md) == (x.den * x.den) * (md * md));
        assert(dd * dd == (x.den * md) * (x.den * md));
        assert(q.is_ratio(exp_num(d, x), exp_den(d, x)));
    }
}

impl Distribution {
    /// The Gaussian density at `x`, in exact symbolic form.
    ///
    /// On success the result fixes the density as
    /// `exp(exponent) / (std_dev * sqrt(2 * pi))` with the exponent exactly
    /// `-(x - mean)^2 / (2 * std_dev^2)`.  A non-positive standard deviation
    /// is an invalid parameter; an exponent whose reduced fraction cannot be
    /// represented reports overflow.
    pub fn evaluate(&self, x: Rat) -> (r: Result<DensityValue, EngineError>)
        requires
            x.wf(),
            self.params_wf(),
        ensures
            r is Ok <==> self.std_dev.num > 0 && spec_eval(*self, x) is Some,
            r matches Ok(dv) ==> dv.std_dev == self.std_dev && Some(dv.exponent) == spec_eval(
                *self,
                x,
            ) && dv.exponent.wf() && dv.exponent.is_ratio(exp_num(*self, x), exp_den(*self, x)),
            r matches Err(e) ==> if self.std_dev.num <= 0 {
                e is InvalidParameter
            } else {
                e is Overflow
            },
    {
        if self.std_dev.num <= 0 {
            return Err(EngineError::InvalidParameter);
        }
        let diff = match checked_sub(x, self.mean) {
            Some(v) => v,
            None => {
                return Err(EngineError::Overflow);
            },
        };
        let sq = match checked_mul(diff, diff) {
            Some(v) => v,
            None => {
                return Err(EngineError::Overflow);
            },
        };
        let s2 = match checked_mul(self.std_dev, self.std_dev) {
            Some(v) => v,
            None => {
                return Err(EngineError::Overflow);
            },
        };
        let t2 = match checked_mul(Rat { num: 2, den: 1 }, s2) {
            Some(v) => v,
            None => {
                return Err(EngineError::Overflow);
            },
        };
        proof {
            assert(self.std_dev.num * self.std_dev.num > 0 && self.std_dev.den * self.std_dev.den
                > 0) by (nonlinear_arith)
                requires
                    self.std_dev.num > 0,
                    self.std_dev.den > 0,
            ;
            lemma_ratio_pos(s2, self.std_dev.num * self.std_dev.num, self.std_dev.den
                * self.std_dev.den);
            lemma_ratio_pos(t2, 2 * s2.num, 1 * s2.den);
        }
        let q0 = match checked_div(sq, t2) {
            Some(v) => v,
            None => {
                return Err(EngineError::Overflow);
            },
        };
        let q = match checked_neg(q0) {
            Some(v) => v,
            None => {
                return Err(EngineError::Overflow);
            },
        };
        proof {
            assert(Some(q) == spec_eval(*self, x));
            lemma_spec_eval_ideal(*self, x);
        }
        Ok(DensityValue { std_dev: self.std_dev, exponent: q })
    }
}

/// The density of a Gaussian is symmetric about its mean: two points that
/// mirror each other around the mean (`x1 + x2 == 2 * mean`) receive equal
/// exponents, hence equal densities.
pub proof fn law_evaluate_symmetric(d: Distribution, x1: Rat, x2: Rat, q1: Rat, q2: Rat)
    requires
        d.valid(),
        x1.wf(),
        x2.wf(),
        (x1.num * x2.den + x2.num * x1.den) * d.mean.den == (2 * d.mean.num) * (x1.den * x2.den),
        spec_eval(d, x1) == Some(q1),
        spec_eval(d, x2) == Some(q2),
    ensures
        q1.val_eq(q2),
{
    lemma_spec_eval_ideal(d, x1);
    lemma_spec_eval_ideal(d, x2);
    let mn = d.mean.num as int;
    let md = d.mean.den as int;
    let sn = d.std_dev.num as int;
    let sd = d.std_dev.den as int;
    let d1 = x1.num * md - mn * x1.den;
    let d2 = x2.num * md - mn * x2.den;
    // mirrored differences: d1 * x2.den == -(d2 * x1.den)
    lemma_distrib(x1.num * md, mn * x1.den, x2.den as int);
    lemma_distrib(x2.num * md, mn * x2.den, x1.den as int);
    lemma_distrib(x1.num * x2.den, x2.num * x1.den, md);
    assert((x1.num * md) * x2.den == (x1.num * x2.den) * md) by (nonlinear_arith);
    assert((x2.num * md) * x1.den == (x2.num * x1.den) * md) by (nonlinear_arith);
    assert((mn * x1.den) * x2.den + (mn * x2.den) * x1.den == (2 * mn) * (x1.den * x2.den)) by (
    nonlinear_arith);
    assert(d1 * x2.den + d2 * x1.den == (x1.num * x2.den + x2.num * x1.den) * md - (2 * mn) * (
    x1.den * x2.den));
    assert(d1 * x2.den == -(d2 * x1.den));
    // squares agree
    assert((d1 * d1) * (x2.den * x2.den) == (d2 * d2) * (x1.den * x1.den)) by (nonlinear_arith)
        requires
            d1 * x2.den == -(d2 * x1.den),
    ;
    // cross-equality of the two exact exponents
    let u = d1 * d1;
    let w = d2 * d2;
    let a = (x1.den * x1.den) as int;
    let b = (x2.den * x2.den) as int;
    let c = sd * sd;
    let m = md * md;
    let t = 2 * (sn * sn);
    assert((u * c) * ((b * m) * t) == (u * b) * ((c * m) * t)) by (nonlinear_arith);
    assert((w * c) * ((a * m) * t) == (w * a) * ((c * m) * t)) by (nonlinear_arith);
    assert((u * b) * ((c * m) * t) == (w * a) * ((c * m) * t));
    assert(exp_num(d, x1) == -(u * c) && exp_num(d, x2) == -(w * c));
    assert(exp_den(d, x1) == (a * m) * t && exp_den(d, x2) == (b * m) * t) by (nonlinear_arith)
        requires
            a == x1.den * x1.den,
            b == x2.den * x2.den,
            m == md * md,
            t == 2 * (sn * sn),
            exp_den(d, x1) == ((x1.den * md) * (x1.den * md)) * (2 * (sn * sn)),
            exp_den(d, x2) == ((x2.den * md) * (x2.den * md)) * (2 * (sn * sn)),
    ;
    assert(exp_num(d, x1) * exp_den(d, x2) == exp_num(d, x2) * exp_den(d, x1)) by (
    nonlinear_arith)
        requires
            (u * c) * ((b * m) * t) == (w * c) * ((a * m) * t),
            exp_num(d, x1) == -(u * c),
            exp_num(d, x2) == -(w * c),
            exp_den(d, x1) == (a * m) * t,
            exp_den(d, x2) == (b * m) * t,
    ;
    lemma_ratio_trans(q1, exp_num(d, x1), exp_den(d, x1), exp_num(d, x2), exp_den(d, x2));
    lemma_ratio_same_val(q1, q2, exp_num(d, x2), exp_den(d, x2));
}

/// Fusing a Gaussian with itself yields the same mean and half the variance:
/// whenever `spec_fuse([d, d])` is defined it equals `(mean, std_dev^2 / 2)`.
pub proof fn law_fuse_identical_pair(d: Distribution, m: Rat, v: Rat)
    requires
        d.valid(),
        spec_fuse(seq![d, d]) == Some((m, v)),
    ensures
        m.val_eq(d.mean),
        v.is_ratio(d.std_dev.num * d.std_dev.num, 2 * (d.std_dev.den * d.std_dev.den)),
{
    let s = seq![d, d];
    assert(s.len() == 2 && s[0] == d && s[1] == d);
    assert(parents_valid(s, 2));
    lemma_fuse_sums_ideal(s, 2);
    lemma_frac_pos(s, 2);
    let mn = d.mean.num as int;
    let md = d.mean.den as int;
    let snn = d.std_dev.num * d.std_dev.num;
    let sdd = d.std_dev.den * d.std_dev.den;
    // unfold the two steps of the exact sums
    assert(psum_frac(s, 0) == (0int, 1int) && wsum_frac(s, 0) == (0int, 1int));
    assert(psum_frac(s, 1) == (0 * snn + sdd * 1, 1 * snn));
    assert(psum_frac(s, 2) == (sdd * snn + sdd * snn, snn * snn));
    assert(wsum_frac(s, 1) == (0 * (md * snn) + (mn * sdd) * 1, 1 * (md * snn)));
    assert(wsum_frac(s, 2) == ((mn * sdd) * (md * snn) + (mn * sdd) * (md * snn), (md * snn) * (
    md * snn)));
    let p2n = sdd * snn + sdd * snn;
    let p2d = snn * snn;
    let w2n = (mn * sdd) * (md * snn) + (mn * sdd) * (md * snn);
    let w2d = (md * snn) * (md * snn);
    let ps = fuse_sums(s, 2)->Some_0.0;
    let ws = fuse_sums(s, 2)->Some_0.1;
    assert(ps.is_ratio(p2n, p2d) && ws.is_ratio(w2n, w2d));
    assert(p2n > 0 && p2d > 0 && w2d > 0);
    lemma_ratio_pos(ps, p2n, p2d);
    assert(ws.den * ps.num > 0) by (nonlinear_arith)
        requires
            ws.den > 0,
            ps.num > 0,
    ;
    // the fused mean
    lemma_norm_rat_some(ws.num * ps.den, ws.den * ps.num);
    assert(m == norm_rat(ws.num * ps.den, ws.den * ps.num)->Some_0);
    lemma_div_respects(ws, ps, m, w2n, w2d, p2n, p2d);
    assert(m.is_ratio(w2n * p2d, w2d * p2n));
    assert((w2n * p2d) * md == mn * (w2d * p2n)) by (nonlinear_arith)
        requires
            w2n == (mn * sdd) * (md * snn) + (mn * sdd) * (md * snn),
            w2d == (md * snn) * (md * snn),
            p2n == sdd * snn + sdd * snn,
            p2d == snn * snn,
    ;
    assert(w2d * p2n != 0) by (nonlinear_arith)
        requires
            w2d > 0,
            p2n > 0,
    ;
    lemma_ratio_trans(m, w2n * p2d, w2d * p2n, mn, md);
    assert(d.mean.is_ratio(mn, md));
    lemma_ratio_same_val(m, d.mean, mn, md);
    // the fused variance
    lemma_norm_rat_some(ps.den as int, ps.num as int);
    assert(v == norm_rat(ps.den as int, ps.num as int)->Some_0);
    assert(v.is_ratio(ps.den as int, ps.num as int));
    lemma_mul_comm(ps.num as int, p2d);
    lemma_mul_comm(p2n, ps.den as int);
    assert(ps.den * p2n == p2d * ps.num);
    lemma_ratio_trans(v, ps.den as int, ps.num as int, p2d, p2n);
    assert(v.is_ratio(p2d, p2n));
    assert(p2d * (2 * sdd) == snn * p2n) by (nonlinear_arith)
        requires
            p2d == snn * snn,
            p2n == sdd * snn + sdd * snn,
    ;
    lemma_ratio_trans(v, p2d, p2n, snn, 2 * sdd);
}

} // verus!
