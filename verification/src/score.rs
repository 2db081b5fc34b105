//! The ranker's scoring: cosine similarity, kept exact.
//!
//! The cosine of two count vectors is dot(u,v) / (||u|| * ||v||), an
//! irrational number in general. Its square is the rational
//! dot(u,v)^2 / (norm_sq(u) * norm_sq(v)), and since all counts are
//! non-negative the cosine itself is non-negative, so comparing squared
//! scores compares scores. A [`Score`] therefore holds the squared cosine
//! as an exact fraction. When either vector is all zeros the cosine is
//! undefined; by convention the score is then zero.

use vstd::prelude::*;

use crate::encoding::count_sum;
use crate::encoding::FeatureVector;

verus! {

/// Dot product of two count vectors.
pub open spec fn dot(u: Seq<u64>, v: Seq<u64>) -> int
    decreases u.len(),
{
    if u.len() == 0 || v.len() == 0 {
        0
    } else {
        dot(u.drop_last(), v.drop_last()) + u.last() * v.last()
    }
}

/// Squared Euclidean norm of a count vector.
pub open spec fn norm_sq(v: Seq<u64>) -> int {
    dot(v, v)
}

/// Entry sums this small keep all score arithmetic inside `u128`:
/// a dot product is at most the product of the two entry sums, so it fits
/// in `u64`, and the products of two dot products fit in `u128`.
pub open spec fn bounded(v: Seq<u64>) -> bool {
    count_sum(v) <= u32::MAX as int
}

/// The squared cosine similarity of two count vectors, as an exact
/// fraction; zero by convention when either vector is all zeros.
pub open spec fn spec_score(u: Seq<u64>, v: Seq<u64>) -> Score {
    if norm_sq(u) == 0 || norm_sq(v) == 0 {
        Score { num: 0, den: 1 }
    } else {
        Score { num: (dot(u, v) * dot(u, v)) as u128, den: (norm_sq(u) * norm_sq(v)) as u128 }
    }
}

/// The squared cosine similarity of two texts' count vectors, as an exact
/// non-negative fraction `num / den`.
#[derive(Clone, Copy, Debug, PartialEq, Eq, Structural)]
pub struct Score {
    pub num: u128,
    pub den: u128,
}

impl Score {
    /// The denominator is positive, so the fraction has a value.
    pub open spec fn valid(&self) -> bool {
        self.den >= 1
    }
}

/// `a` is a strictly smaller fraction than `b`.
pub open spec fn val_lt(a: Score, b: Score) -> bool {
    a.num * b.den < b.num * a.den
}

/// `a` and `b` are equal as fractions.
pub open spec fn val_eq(a: Score, b: Score) -> bool {
    a.num * b.den == b.num * a.den
}

/// Outcome of an exact comparison.
#[derive(Clone, Copy, Debug, PartialEq, Eq, Structural)]
pub enum Rel {
    Lt,
    Eq,
    Gt,
}

/// Compare the fractions p/q and r/s exactly, using only division and
/// remainder, so that no intermediate product can overflow.
fn frac_cmp(p: u128, q: u128, r: u128, s: u128) -> (c: Rel)
    requires
        q > 0,
        s > 0,
    ensures
        (c == Rel::Lt <==> p * s < r * q),
        (c == Rel::Eq <==> p * s == r * q),
        (c == Rel::Gt <==> p * s > r * q),
    decreases q + s,
{
    let a = p / q;
    let b = r / s;
    let fa = p % q;
    let fb = r % s;
    proof {
        vstd::arithmetic::div_mod::lemma_fundamental_div_mod(p as int, q as int);
        vstd::arithmetic::div_mod::lemma_mod_division_less_than_divisor(p as int, q as int);
        vstd::arithmetic::div_mod::lemma_fundamental_div_mod(r as int, s as int);
        vstd::arithmetic::div_mod::lemma_mod_division_less_than_divisor(r as int, s as int);
        assert(p as int == q as int * (a as int) + fa as int);
        assert(r as int == s as int * (b as int) + fb as int);
    }
    if a < b {
        proof {
            assert(p * s < r * q) by (nonlinear_arith)
                requires
                    p == q * (a as int) + fa as int,
                    r == s * (b as int) + fb as int,
                    0 <= (fa as int) && (fa as int) < q as int,
                    0 <= fb as int,
                    (a as int) < b as int,
                    q > 0,
                    s > 0,
            ;
        }
        Rel::Lt
    } else if b < a {
        proof {
            assert(r * q < p * s) by (nonlinear_arith)
                requires
                    p == q * (a as int) + fa as int,
                    r == s * (b as int) + fb as int,
                    0 <= fa as int,
                    0 <= (fb as int) && (fb as int) < s as int,
                    (b as int) < a as int,
                    q > 0,
                    s > 0,
            ;
        }
        Rel::Gt
    } else {
        proof {
            assert(p * s - r * q == fa * s - fb * q) by (nonlinear_arith)
                requires
                    p == q * (a as int) + fa as int,
                    r == s * (a as int) + fb as int,
            ;
        }
        if fa == 0 && fb == 0 {
            proof {
                assert(p * s == r * q) by (nonlinear_arith)
                    requires
                        p * s - r * q == fa * s - fb * q,
                        fa == 0,
                        fb == 0,
                ;
            }
            Rel::Eq
        } else if fa == 0 {
            proof {
                assert(p * s < r * q) by (nonlinear_arith)
                    requires
                        p * s - r * q == fa * s - fb * q,
                        fa == 0,
                        fb >= 1,
                        q >= 1,
                ;
            }
            Rel::Lt
        } else if fb == 0 {
            proof {
                assert(p * s > r * q) by (nonlinear_arith)
                    requires
                        p * s - r * q == fa * s - fb * q,
                        fb == 0,
                        fa >= 1,
                        s >= 1,
                ;
            }
            Rel::Gt
        } else {
            let c = frac_cmp(s, fb, q, fa);
            proof {
                assert(c == Rel::Lt <==> s * fa < q * fb);
                assert((p * s < r * q) <==> (fa * s < fb * q));
                assert((p * s == r * q) <==> (fa * s == fb * q));
            }
            c
        }
    }
}

/// Compare two scores exactly, as fractions.
pub fn score_cmp(a: &Score, b: &Score) -> (c: Rel)
    requires
        a.valid(),
        b.valid(),
    ensures
        (c == Rel::Lt <==> val_lt(*a, *b)),
        (c == Rel::Eq <==> val_eq(*a, *b)),
        (c == Rel::Gt <==> val_lt(*b, *a)),
{
    frac_cmp(a.num, a.den, b.num, b.den)
}

/// The order on scores is transitive.
pub proof fn lemma_val_lt_trans(a: Score, b: Score, c: Score)
    requires
        a.valid(),
        b.valid(),
        c.valid(),
        val_lt(a, b),
        val_lt(b, c),
    ensures
        val_lt(a, c),
{
    assert(a.num * c.den < c.num * a.den) by (nonlinear_arith)
        requires
            a.num * b.den < b.num * a.den,
            b.num * c.den < c.num * b.den,
            a.den >= 1,
            b.den >= 1,
            c.den >= 1,
    ;
}

/// A score below another is below everything equal to that other.
pub proof fn lemma_val_lt_eq(a: Score, b: Score, c: Score)
    requires
        a.valid(),
        b.valid(),
        c.valid(),
        val_lt(a, b),
        val_eq(b, c),
    ensures
        val_lt(a, c),
{
    assert(a.num * c.den < c.num * a.den) by (nonlinear_arith)
        requires
            a.num * b.den < b.num * a.den,
            b.num * c.den == c.num * b.den,
            a.den >= 1,
            b.den >= 1,
            c.den >= 1,
    ;
}

/// Everything equal to a score is below whatever that score is below.
pub proof fn lemma_val_eq_lt(a: Score, b: Score, c: Score)
    requires
        a.valid(),
        b.valid(),
        c.valid(),
        val_eq(a, b),
        val_lt(b, c),
    ensures
        val_lt(a, c),
{
    assert(a.num * c.den < c.num * a.den) by (nonlinear_arith)
        requires
            a.num * b.den == b.num * a.den,
            b.num * c.den < c.num * b.den,
            a.den >= 1,
            b.den >= 1,
            c.den >= 1,
    ;
}

/// Equality of scores is transitive.
pub proof fn lemma_val_eq_trans(a: Score, b: Score, c: Score)
    requires
        a.valid(),
        b.valid(),
        c.valid(),
        val_eq(a, b),
        val_eq(b, c),
    ensures
        val_eq(a, c),
{
    assert(a.num * c.den == c.num * a.den) by (nonlinear_arith)
        requires
            a.num * b.den == b.num * a.den,
            b.num * c.den == c.num * b.den,
            a.den >= 1,
            b.den >= 1,
            c.den >= 1,
    ;
}

/// Entry sums are never negative.
pub proof fn lemma_count_sum_nonneg(v: Seq<u64>)
    ensures
        count_sum(v) >= 0,
    decreases v.len(),
{
    if v.len() > 0 {
        lemma_count_sum_nonneg(v.drop_last());
    }
}

/// A prefix of a count vector sums to no more than the whole vector.
pub proof fn lemma_count_sum_take_le(v: Seq<u64>, i: int)
    requires
        0 <= i <= v.len(),
    ensures
        0 <= count_sum(v.take(i)) <= count_sum(v),
    decreases v.len(),
{
    lemma_count_sum_nonneg(v.take(i));
    if i == v.len() {
        assert(v.take(i) =~= v);
    } else {
        assert(v.drop_last().take(i) =~= v.take(i));
        lemma_count_sum_take_le(v.drop_last(), i);
    }
}

/// A dot product of count vectors is non-negative and at most the product
/// of the two entry sums.
pub proof fn lemma_dot_le_sum_mul(u: Seq<u64>, v: Seq<u64>)
    ensures
        0 <= dot(u, v),
        dot(u, v) <= count_sum(u) * count_sum(v),
    decreases u.len(),
{
    lemma_count_sum_nonneg(u);
    lemma_count_sum_nonneg(v);
    if u.len() == 0 || v.len() == 0 {
        assert(count_sum(u) * count_sum(v) >= 0) by (nonlinear_arith)
            requires
                count_sum(u) >= 0,
                count_sum(v) >= 0,
        ;
    } else {
        lemma_dot_le_sum_mul(u.drop_last(), v.drop_last());
        lemma_count_sum_nonneg(u.drop_last());
        lemma_count_sum_nonneg(v.drop_last());
        assert(dot(u.drop_last(), v.drop_last()) + u.last() * v.last() <= count_sum(u) * count_sum(
            v,
        ) && 0 <= dot(u.drop_last(), v.drop_last()) + u.last() * v.last()) by (nonlinear_arith)
            requires
                0 <= dot(u.drop_last(), v.drop_last()),
                dot(u.drop_last(), v.drop_last()) <= count_sum(u.drop_last()) * count_sum(
                    v.drop_last(),
                ),
                count_sum(u) == count_sum(u.drop_last()) + u.last(),
                count_sum(v) == count_sum(v.drop_last()) + v.last(),
                count_sum(u.drop_last()) >= 0,
                count_sum(v.drop_last()) >= 0,
                u.last() >= 0,
                v.last() >= 0,
        ;
    }
}

/// Cauchy-Schwarz: the squared dot product is at most the product of the
/// squared norms.
#[verifier::rlimit(30)]
pub proof fn lemma_cauchy_schwarz(u: Seq<u64>, v: Seq<u64>)
    ensures
        dot(u, v) * dot(u, v) <= norm_sq(u) * norm_sq(v),
    decreases u.len(),
{
    lemma_dot_le_sum_mul(u, u);
    lemma_dot_le_sum_mul(v, v);
    if u.len() == 0 || v.len() == 0 {
        assert(norm_sq(u) * norm_sq(v) >= 0) by (nonlinear_arith)
            requires
                norm_sq(u) >= 0,
                norm_sq(v) >= 0,
        ;
    } else {
        let up = u.drop_last();
        let vp = v.drop_last();
        lemma_cauchy_schwarz(up, vp);
        lemma_dot_le_sum_mul(up, vp);
        lemma_dot_le_sum_mul(up, up);
        lemma_dot_le_sum_mul(vp, vp);
        let d = dot(up, vp);
        let na = norm_sq(up);
        let nb = norm_sq(vp);
        let a = u.last() as int;
        let b = v.last() as int;
        assert((d + a * b) * (d + a * b) <= (na + a * a) * (nb + b * b)) by (nonlinear_arith)
            requires
                d * d <= na * nb,
                0 <= d,
                0 <= a,
                0 <= b,
                0 <= na,
                0 <= nb,
        ;
    }
}

/// Scores lie in the unit interval: the numerator never exceeds the
/// denominator, so the squared cosine is at most one.
pub proof fn lemma_score_in_unit(u: Seq<u64>, v: Seq<u64>)
    requires
        bounded(u),
        bounded(v),
    ensures
        spec_score(u, v).num <= spec_score(u, v).den,
{
    if norm_sq(u) != 0 && norm_sq(v) != 0 {
        lemma_cauchy_schwarz(u, v);
        lemma_dot_le_sum_mul(u, v);
        lemma_dot_le_sum_mul(u, u);
        lemma_dot_le_sum_mul(v, v);
        lemma_count_sum_nonneg(u);
        lemma_count_sum_nonneg(v);
        let d = dot(u, v);
        let nm = norm_sq(u) * norm_sq(v);
        assert(norm_sq(u) <= 0xFFFF_FFFE_0000_0001) by (nonlinear_arith)
            requires
                norm_sq(u) <= count_sum(u) * count_sum(u),
                0 <= count_sum(u) <= 0xFFFF_FFFF,
        ;
        assert(norm_sq(v) <= 0xFFFF_FFFE_0000_0001) by (nonlinear_arith)
            requires
                norm_sq(v) <= count_sum(v) * count_sum(v),
                0 <= count_sum(v) <= 0xFFFF_FFFF,
        ;
        assert(nm <= 0xFFFF_FFFC_0000_0005_FFFF_FFFC_0000_0001) by (nonlinear_arith)
            requires
                nm == norm_sq(u) * norm_sq(v),
                0 <= norm_sq(u) <= 0xFFFF_FFFE_0000_0001,
                0 <= norm_sq(v) <= 0xFFFF_FFFE_0000_0001,
        ;
        assert(0 <= d * d) by (nonlinear_arith)
            requires
                0 <= d,
        ;
        assert(0 <= d * d <= nm <= u128::MAX);
    }
}

/// The dot product is symmetric.
pub proof fn lemma_dot_symmetric(u: Seq<u64>, v: Seq<u64>)
    ensures
        dot(u, v) == dot(v, u),
    decreases u.len(),
{
    if u.len() > 0 && v.len() > 0 {
        lemma_dot_symmetric(u.drop_last(), v.drop_last());
    }
}

/// A squared norm is zero exactly when the vector is all zeros.
pub proof fn lemma_norm_sq_zero(v: Seq<u64>)
    ensures
        (norm_sq(v) == 0) <==> (forall|i: int| 0 <= i < v.len() ==> v[i] == 0),
    decreases v.len(),
{
    if v.len() > 0 {
        lemma_norm_sq_zero(v.drop_last());
        lemma_dot_le_sum_mul(v.drop_last(), v.drop_last());
        assert(v.last() * v.last() >= 0 && (v.last() * v.last() == 0 <==> v.last() == 0))
            by (nonlinear_arith);
        if norm_sq(v) == 0 {
            assert(forall|i: int| 0 <= i < v.len() - 1 ==> v.drop_last()[i] == 0);
            assert forall|i: int| 0 <= i < v.len() implies v[i] == 0 by {
                if i < v.len() - 1 {
                    assert(v.drop_last()[i] == 0);
                }
            }
        } else {
            if forall|i: int| 0 <= i < v.len() ==> v[i] == 0 {
                assert forall|i: int| 0 <= i < v.len() - 1 implies v.drop_last()[i] == 0 by {
                    assert(v[i] == 0);
                }
                assert(v.last() == 0);
            }
        }
    }
}

/// Cosine similarity is symmetric: the two orders give the same score.
pub proof fn lemma_score_symmetric(u: Seq<u64>, v: Seq<u64>)
    ensures
        spec_score(u, v) == spec_score(v, u),
{
    lemma_dot_symmetric(u, v);
}

/// A vector that is not all zeros has similarity exactly one with itself:
/// the score's numerator and denominator coincide.
pub proof fn lemma_self_score_one(v: Seq<u64>)
    requires
        norm_sq(v) != 0,
    ensures
        spec_score(v, v).num == spec_score(v, v).den,
        val_eq(spec_score(v, v), (Score { num: 1, den: 1 })),
{
    assert(spec_score(v, v).num == spec_score(v, v).den);
    let s = spec_score(v, v);
    assert(s.num * 1 == 1 * s.den) by (nonlinear_arith)
        requires
            s.num == s.den,
    ;
}

/// Dot product of two feature vectors, exact.
fn dot_exec(u: &FeatureVector, v: &FeatureVector) -> (d: u64)
    requires
        u.wf(),
        v.wf(),
        bounded(u@),
        bounded(v@),
    ensures
        d as int == dot(u@, v@),
{
    let mut acc: u64 = 0;
    let mut i: usize = 0;
    proof {
        assert(u@.take(0) =~= Seq::<u64>::empty());
        assert(v@.take(0) =~= Seq::<u64>::empty());
    }
    while i < 26
        invariant
            i <= 26,
            u@.len() == 26,
            v@.len() == 26,
            bounded(u@),
            bounded(v@),
            acc as int == dot(u@.take(i as int), v@.take(i as int)),
        decreases 26 - i,
    {
        proof {
            assert(u@.take(i as int + 1).drop_last() =~= u@.take(i as int));
            assert(v@.take(i as int + 1).drop_last() =~= v@.take(i as int));
            lemma_dot_le_sum_mul(u@.take(i as int + 1), v@.take(i as int + 1));
            lemma_count_sum_take_le(u@, i as int + 1);
            lemma_count_sum_take_le(v@, i as int + 1);
            assert(dot(u@.take(i as int + 1), v@.take(i as int + 1)) <= count_sum(u@) * count_sum(
                v@,
            )) by (nonlinear_arith)
                requires
                    dot(u@.take(i as int + 1), v@.take(i as int + 1)) <= count_sum(
                        u@.take(i as int + 1),
                    ) * count_sum(v@.take(i as int + 1)),
                    0 <= count_sum(u@.take(i as int + 1)) <= count_sum(u@),
                    0 <= count_sum(v@.take(i as int + 1)) <= count_sum(v@),
            ;
            assert(count_sum(u@) * count_sum(v@) <= 0xFFFF_FFFF * 0xFFFF_FFFF)
                by (nonlinear_arith)
                requires
                    0 <= count_sum(u@) <= 0xFFFF_FFFF,
                    0 <= count_sum(v@) <= 0xFFFF_FFFF,
            ;
            lemma_count_sum_nonneg(u@);
            lemma_count_sum_nonneg(v@);
        }
        let term = u.counts[i] * v.counts[i];
        acc = acc + term;
        i = i + 1;
    }
    proof {
        assert(u@.take(26) =~= u@);
        assert(v@.take(26) =~= v@);
    }
    acc
}

/// Cosine similarity of two count vectors, as an exact squared fraction;
/// zero by convention when either vector is all zeros.
pub fn score(u: &FeatureVector, v: &FeatureVector) -> (s: Score)
    requires
        u.wf(),
        v.wf(),
        bounded(u@),
        bounded(v@),
    ensures
        s == spec_score(u@, v@),
        s.valid(),
        s.num <= s.den,
{
    proof {
        lemma_score_in_unit(u@, v@);
    }
    let nu = dot_exec(u, u);
    let nv = dot_exec(v, v);
    if nu == 0 || nv == 0 {
        Score { num: 0, den: 1 }
    } else {
        let d = dot_exec(u, v);
        proof {
            assert((d as int) * (d as int) <= u128::MAX) by (nonlinear_arith)
                requires
                    0 <= (d as int) && (d as int) <= u64::MAX,
            ;
            assert(1 <= (nu as int) * (nv as int) && (nu as int) * (nv as int) <= u128::MAX) by (nonlinear_arith)
                requires
                    1 <= (nu as int) && (nu as int) <= u64::MAX,
                    1 <= (nv as int) && (nv as int) <= u64::MAX,
            ;
        }
        let num = (d as u128) * (d as u128);
        let den = (nu as u128) * (nv as u128);
        Score { num, den }
    }
}

} // verus!
