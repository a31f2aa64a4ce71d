//! Number-theoretic operations: Horner evaluation, root testing (exact and
//! modular), the derivative, root factoring by synthetic division over the
//! integers and over a prime field, trial-division primality, and the
//! modular inverse by the extended Euclidean algorithm.
use vstd::prelude::*;

use vstd::arithmetic::div_mod::{
    lemma_add_mod_noop, lemma_fundamental_div_mod, lemma_fundamental_div_mod_converse_mod,
    lemma_mod_bound, lemma_mul_mod_noop_left,
};

use crate::modular::{
    abs_val, divides, emod, eu_rem_i128, is_prime_spec, lemma_divides_le, lemma_divides_linear,
    lemma_divides_mod, lemma_divides_transitive,
};
use crate::mul::{conv_at, lemma_conv_two, mul_spec};
use crate::rem::emod_map;
use crate::specs::{coeff_of, fits, is_normal, lemma_trim_coeffs, lemma_trim_prefix, trim};
use crate::Polynomial;

verus! {

/// The value of the polynomial with coefficients `s` at the point `x`.
pub open spec fn eval_at(s: Seq<int>, x: int) -> int
    decreases s.len(),
{
    if s.len() == 0 {
        0
    } else {
        s[0] + x * eval_at(s.subrange(1, s.len() as int), x)
    }
}

/// The coefficients of `s` from degree `i` upward, shifted down to start at
/// degree 0: the suffixes that Horner's method walks through.
pub open spec fn suffix(s: Seq<int>, i: int) -> Seq<int> {
    s.subrange(i, s.len() as int)
}

/// One Horner step: the value of a suffix is its first coefficient plus `x`
/// times the value of the next shorter suffix.
pub proof fn lemma_eval_suffix(s: Seq<int>, x: int, i: int)
    requires
        0 <= i < s.len(),
    ensures
        eval_at(suffix(s, i), x) == s[i] + x * eval_at(suffix(s, i + 1), x),
{
    let t = suffix(s, i);
    assert(t.subrange(1, t.len() as int) =~= suffix(s, i + 1));
}

/// The whole sequence is its own suffix at 0.
pub proof fn lemma_suffix_zero(s: Seq<int>)
    ensures
        suffix(s, 0) == s,
{
    assert(suffix(s, 0) =~= s);
}

/// Every intermediate value of Horner's method on `s` at `x` — the value of
/// each suffix, and each such value scaled once more by `x` — fits in a
/// machine word. This is exactly what the machine forces on exact
/// evaluation; the caller answers for overflow.
pub open spec fn eval_fits(s: Seq<int>, x: int) -> bool {
    &&& forall|i: int| 0 <= i <= s.len() ==> fits(#[trigger] eval_at(suffix(s, i), x))
    &&& forall|i: int|
        0 <= i < s.len() ==> fits(#[trigger] (x * eval_at(suffix(s, i + 1), x)))
}

impl Polynomial {
    /// The value of the polynomial at `x`, by Horner's method: from the
    /// highest coefficient down, multiply the accumulator by `x` and add the
    /// coefficient.
    pub fn eval(&self, x: isize) -> (r: isize)
        requires
            self.wf(),
            eval_fits(self@, x as int),
        ensures
            r as int == eval_at(self@, x as int),
    {
        let ghost s = self@;
        let mut acc: isize = 0;
        let mut i = self.coeffs.len();
        proof {
            assert(suffix(s, s.len() as int) =~= Seq::<int>::empty());
        }
        while i > 0
            invariant
                i <= self.coeffs@.len(),
                acc as int == eval_at(suffix(s, i as int), x as int),
            decreases i,
        {
            i = i - 1;
            proof {
                lemma_eval_suffix(s, x as int, i as int);
                assert(fits(x as int * eval_at(suffix(s, i + 1), x as int)));
                assert(fits(eval_at(suffix(s, i as int), x as int)));
                assert(acc as int * (x as int) == (x as int) * eval_at(
                    suffix(s, i + 1),
                    x as int,
                )) by (nonlinear_arith)
                    requires
                        acc as int == eval_at(suffix(s, i + 1), x as int),
                ;
            }
            let m = acc * x;
            acc = m + self.coeffs[i];
        }
        proof {
            lemma_suffix_zero(s);
        }
        acc
    }

    /// Whether `x` is a root: the polynomial evaluates to 0 at `x`.
    pub fn has_root(&self, x: isize) -> (r: bool)
        requires
            self.wf(),
            eval_fits(self@, x as int),
        ensures
            r == (eval_at(self@, x as int) == 0),
    {
        self.eval(x) == 0
    }

    /// Whether `x` is a root modulo `div`: the value at `x` has Euclidean
    /// remainder 0. Computed with the remainder taken at every Horner step,
    /// so no intermediate value can overflow.
    pub fn has_root_mod(&self, x: isize, div: isize) -> (r: bool)
        requires
            self.wf(),
            div != 0,
        ensures
            r == (emod(eval_at(self@, x as int), div as int) == 0),
    {
        let ghost s = self@;
        let ghost md = abs_val(div as int);
        let m: i128 = if div < 0 {
            -(div as i128)
        } else {
            div as i128
        };
        let mut acc: i128 = 0;
        let mut i = self.coeffs.len();
        proof {
            assert(suffix(s, s.len() as int) =~= Seq::<int>::empty());
            lemma_mod_bound(0, md);
            assert(emod(0, div as int) == 0);
        }
        while i > 0
            invariant
                i <= self.coeffs@.len(),
                m == md,
                0 <= acc < m,
                acc == emod(eval_at(suffix(s, i as int), x as int), div as int),
            decreases i,
        {
            i = i - 1;
            let ghost e = eval_at(suffix(s, i + 1), x as int);
            proof {
                lemma_eval_suffix(s, x as int, i as int);
                assert(acc * (x as i128) <= m * 0x8000_0000_0000_0000 && -(m
                    * 0x8000_0000_0000_0000) <= acc * (x as i128)) by (nonlinear_arith)
                    requires
                        0 <= acc < m,
                        -0x8000_0000_0000_0000 <= (x as i128) <= 0x8000_0000_0000_0000,
                ;
                assert(m <= 0x8000_0000_0000_0000i128);
            }
            let t: i128 = acc * (x as i128) + (self.coeffs[i] as i128);
            proof {
                lemma_horner_step(e, s[i as int], x as int, md);
            }
            acc = eu_rem_i128(t, m);
        }
        proof {
            lemma_suffix_zero(s);
        }
        acc == 0
    }
}

/// The coefficients of the derivative: index `i` holds `(i + 1)` times
/// coefficient `i + 1` of the input; constants and zero differentiate to
/// zero.
pub open spec fn deriv_spec(s: Seq<int>) -> Seq<int> {
    if s.len() <= 1 {
        Seq::empty()
    } else {
        Seq::new((s.len() - 1) as nat, |i: int| (i + 1) * s[i + 1])
    }
}

/// The quotient of `s` by `x - a` when `a` is a root: coefficient `n` is
/// the value of the degree-`n + 1` suffix of `s` at `a`, which is what the
/// synthetic-division accumulator walks through.
pub open spec fn quot_spec(s: Seq<int>, a: int) -> Seq<int> {
    if s.len() == 0 {
        Seq::empty()
    } else {
        Seq::new((s.len() - 1) as nat, |n: int| eval_at(suffix(s, n + 1), a))
    }
}

impl Polynomial {
    /// The derivative. Differentiating a canonical polynomial over the
    /// integers keeps the form canonical, since a nonzero leading
    /// coefficient times a positive degree cannot vanish.
    pub fn derivative(&self) -> (r: Polynomial)
        requires
            self.wf(),
            forall|i: int| 1 <= i < self@.len() ==> fits(#[trigger] (i * self@[i])),
        ensures
            r.wf(),
            r@ == deriv_spec(self@),
    {
        let ghost s = self@;
        let len = self.coeffs.len();
        if len <= 1 {
            Polynomial::zero()
        } else {
            let mut v: Vec<isize> = Vec::new();
            let mut i: usize = 1;
            while i < len
                invariant
                    1 <= i <= len,
                    len == self.coeffs@.len(),
                    v@.len() == i - 1,
                    forall|j: int| 0 <= j < i - 1 ==> v@[j] as int == (j + 1) * s[j + 1],
                decreases len - i,
            {
                proof {
                    assert(fits((i as int) * s[i as int]));
                }
                v.push((i as isize) * self.coeffs[i]);
                i = i + 1;
            }
            let r = Polynomial { coeffs: v };
            proof {
                assert(r@ =~= deriv_spec(s));
                assert((len - 1) as int * s[len - 1] != 0) by (nonlinear_arith)
                    requires
                        s[len - 1] != 0,
                        len >= 2,
                ;
            }
            r
        }
    }

    /// If `a` is a root, the quotient of the polynomial by `x - a`, found by
    /// synthetic division; if `a` is not a root there is no result. The zero
    /// polynomial has every value as a root and factors to itself.
    pub fn factor_root(&self, a: isize) -> (res: Option<Polynomial>)
        requires
            self.wf(),
            eval_fits(self@, a as int),
        ensures
            res.is_some() == (eval_at(self@, a as int) == 0),
            res matches Some(q) ==> q.wf() && q@ == quot_spec(self@, a as int),
    {
        let ghost s = self@;
        let ghost ai = a as int;
        if !self.has_root(a) {
            return None;
        }
        let len = self.coeffs.len();
        if len == 0 {
            return Some(Polynomial::zero());
        }
        proof {
            if len == 1 {
                assert(s.subrange(1, 1) =~= Seq::<int>::empty());
                assert(eval_at(Seq::<int>::empty(), ai) == 0);
                assert(eval_at(s, ai) == s[0] + ai * eval_at(
                    s.subrange(1, s.len() as int),
                    ai,
                ));
                assert(eval_at(s, ai) == s[0]);
                assert(false);
            }
        }
        if a == 0 {
            let mut v: Vec<isize> = Vec::new();
            let mut i: usize = 1;
            while i < len
                invariant
                    1 <= i <= len,
                    len == self.coeffs@.len(),
                    v@.len() == i - 1,
                    forall|j: int| 0 <= j < i - 1 ==> v@[j] as int == s[j + 1],
                decreases len - i,
            {
                v.push(self.coeffs[i]);
                i = i + 1;
            }
            let q = Polynomial { coeffs: v };
            proof {
                assert forall|n: int| 0 <= n < len - 1 implies #[trigger] eval_at(
                    suffix(s, n + 1),
                    ai,
                ) == s[n + 1] by {
                    lemma_eval_suffix(s, ai, n + 1);
                }
                assert(q@ =~= quot_spec(s, ai));
            }
            return Some(q);
        }
        let mut v: Vec<isize> = Vec::new();
        let mut acc: isize = 0;
        let mut n: usize = 0;
        proof {
            lemma_suffix_zero(s);
        }
        while n < len - 1
            invariant
                n <= len - 1,
                len == self.coeffs@.len(),
                2 <= len,
                v@.len() == n,
                forall|j: int| 0 <= j < n ==> v@[j] as int == eval_at(suffix(s, j + 1), ai),
                acc as int == eval_at(suffix(s, n as int), ai),
            decreases len - 1 - n,
        {
            let ghost e = eval_at(suffix(s, n + 1), ai);
            proof {
                lemma_eval_suffix(s, ai, n as int);
                assert(fits(ai * e));
                assert(fits(e));
            }
            let diff = acc - self.coeffs[n];
            proof {
                assert(fits(e) && diff as int == (a as int) * e);
            }
            let q = exact_div(diff, a);
            proof {
                assert(q as int == e) by (nonlinear_arith)
                    requires
                        (a as int) * (q as int) == (a as int) * e,
                        a != 0,
                ;
            }
            v.push(q);
            acc = q;
            n = n + 1;
        }
        let q = Polynomial { coeffs: v };
        proof {
            assert(q@ =~= quot_spec(s, ai));
            lemma_eval_suffix(s, ai, len - 1);
            assert(suffix(s, len as int) =~= Seq::<int>::empty());
            assert(eval_at(suffix(s, len - 1), ai) == s[len - 1]);
        }
        Some(q)
    }
}

/// Division of `x` by `d` when `d` is known to divide `x` exactly;
/// truncation cannot occur.
fn exact_div(x: isize, d: isize) -> (r: isize)
    requires
        d != 0,
        exists|z: int| fits(z) && x as int == #[trigger] ((d as int) * z),
    ensures
        x as int == (d as int) * (r as int),
{
    let t = x.checked_div(d);
    proof {
        let z = choose|z: int| fits(z) && x as int == #[trigger] ((d as int) * z);
        let xi = x as int;
        let di = d as int;
        if xi == 0 {
            assert(t == Some(0isize));
            assert(di * z == 0 ==> z == 0) by (nonlinear_arith)
                requires
                    di != 0,
            ;
        } else if xi > 0 && di > 0 {
            vstd::arithmetic::div_mod::lemma_div_multiples_vanish(z, di);
            assert(t == Some((xi / di) as isize));
        } else if xi < 0 && di < 0 {
            assert(xi * -1 == (-di) * z) by (nonlinear_arith)
                requires
                    xi == di * z,
            ;
            vstd::arithmetic::div_mod::lemma_div_multiples_vanish(z, -di);
            assert(t == Some(((xi * -1) / (di * -1)) as isize));
            assert((xi * -1) / (di * -1) == z);
        } else if xi < 0 {
            assert(xi * -1 == di * (-z)) by (nonlinear_arith)
                requires
                    xi == di * z,
            ;
            vstd::arithmetic::div_mod::lemma_div_multiples_vanish(-z, di);
            assert(t == Some((((xi * -1) / di) * -1) as isize));
            assert((xi * -1) / di == -z);
            assert(-z * -1 == z) by (nonlinear_arith);
        } else {
            assert(xi == (-di) * (-z)) by (nonlinear_arith)
                requires
                    xi == di * z,
            ;
            vstd::arithmetic::div_mod::lemma_div_multiples_vanish(-z, -di);
            assert(t == Some(((xi / (di * -1)) * -1) as isize));
            assert(xi / (di * -1) == -z);
            assert(-z * -1 == z) by (nonlinear_arith);
        }
    }
    t.unwrap()
}

/// Root/factor round trip: when `a` is a root of a canonical polynomial,
/// multiplying the factored quotient back by `x - a` — the coefficient
/// sequence `[-a, 1]` — restores the polynomial exactly.
pub proof fn lemma_factor_root_round_trip(s: Seq<int>, a: int)
    requires
        is_normal(s),
        eval_at(s, a) == 0,
    ensures
        mul_spec(quot_spec(s, a), seq![-a, 1int]) == s,
{
    let q = quot_spec(s, a);
    let b = seq![-a, 1int];
    if s.len() == 0 {
        assert(mul_spec(q, b) =~= s);
    } else if s.len() == 1 {
        assert(s.subrange(1, 1) =~= Seq::<int>::empty());
        assert(eval_at(s, a) == s[0] + a * eval_at(s.subrange(1, s.len() as int), a));
        assert(false);
    } else {
        let ll = s.len() as int;
        assert(q.len() == ll - 1);
        assert(mul_spec(q, b).len() == ll);
        assert forall|i: int| 0 <= i < ll implies mul_spec(q, b)[i] == s[i] by {
            lemma_conv_two(q, b, i, i + 1);
            if i == 0 {
                lemma_suffix_zero(s);
                lemma_eval_suffix(s, a, 0);
                assert(coeff_of(q, 0) == eval_at(suffix(s, 1), a));
                assert(coeff_of(q, 0) * (-a) == -(a * eval_at(suffix(s, 1), a))) by (
                nonlinear_arith)
                    requires
                        coeff_of(q, 0) == eval_at(suffix(s, 1), a),
                ;
            } else if i < ll - 1 {
                lemma_eval_suffix(s, a, i);
                assert(coeff_of(q, i) * (-a) == -(a * eval_at(suffix(s, i + 1), a))) by (
                nonlinear_arith)
                    requires
                        coeff_of(q, i) == eval_at(suffix(s, i + 1), a),
                ;
            } else {
                assert(coeff_of(q, i) == 0);
                assert(coeff_of(q, i) * (-a) == 0) by (nonlinear_arith)
                    requires
                        coeff_of(q, i) == 0,
                ;
                lemma_eval_suffix(s, a, ll - 1);
                assert(suffix(s, ll) =~= Seq::<int>::empty());
                assert(coeff_of(q, ll - 2) == s[ll - 1] + a * 0);
            }
        }
        assert(mul_spec(q, b) =~= s);
    }
}

/// Dropping a trailing zero coefficient does not change any value of the
/// polynomial.
proof fn lemma_eval_drop_zero(u: Seq<int>, x: int)
    requires
        u.len() > 0,
        u[u.len() - 1] == 0,
    ensures
        eval_at(u, x) == eval_at(u.drop_last(), x),
    decreases u.len(),
{
    if u.len() == 1 {
        assert(u.subrange(1, 1) =~= Seq::<int>::empty());
        assert(u.drop_last() =~= Seq::<int>::empty());
    } else {
        let t = u.subrange(1, u.len() as int);
        lemma_eval_drop_zero(t, x);
        assert(t.drop_last() =~= u.drop_last().subrange(1, u.len() - 1));
    }
}

/// Trimming trailing zeros does not change any value of the polynomial.
proof fn lemma_eval_trim(u: Seq<int>, x: int)
    ensures
        eval_at(trim(u), x) == eval_at(u, x),
    decreases u.len(),
{
    if u.len() > 0 && u[u.len() - 1] == 0 {
        lemma_eval_drop_zero(u, x);
        lemma_eval_trim(u.drop_last(), x);
    }
}

/// Congruent replacement inside an affine expression: modulo `p`, both the
/// scaled and the added operand may be swapped for congruent values.
proof fn lemma_cong_affine(u: int, u2: int, w: int, w2: int, c: int, p: int)
    requires
        0 < p,
        emod(u, p) == emod(u2, p),
        emod(w, p) == emod(w2, p),
    ensures
        emod(u * c + w, p) == emod(u2 * c + w2, p),
{
    lemma_mul_mod_noop_left(u, c, p);
    lemma_mul_mod_noop_left(u2, c, p);
    lemma_add_mod_noop(u * c, w, p);
    lemma_add_mod_noop(u2 * c, w2, p);
}

/// Reducing the coefficients modulo `p` does not change the value modulo
/// `p`.
proof fn lemma_eval_mod_map(s: Seq<int>, x: int, p: int)
    requires
        0 < p,
    ensures
        emod(eval_at(emod_map(s, p), x), p) == emod(eval_at(s, x), p),
    decreases s.len(),
{
    if s.len() > 0 {
        let t = s.subrange(1, s.len() as int);
        lemma_eval_mod_map(t, x, p);
        assert(emod_map(s, p).subrange(1, s.len() as int) =~= emod_map(t, p));
        vstd::arithmetic::div_mod::lemma_mod_twice(s[0], p);
        lemma_cong_affine(
            eval_at(emod_map(t, p), x),
            eval_at(t, x),
            emod(s[0], p),
            s[0],
            x,
            p,
        );
        assert(eval_at(emod_map(s, p), x) == emod(s[0], p) + eval_at(emod_map(t, p), x) * x
            && eval_at(s, x) == s[0] + eval_at(t, x) * x) by (nonlinear_arith)
            requires
                eval_at(emod_map(s, p), x) == emod(s[0], p) + x * eval_at(emod_map(t, p), x),
                eval_at(s, x) == s[0] + x * eval_at(t, x),
        ;
    }
}

/// One synthetic-division step over the prime field: multiplying the
/// shifted accumulator by the inverse of `a` lands, modulo `p`, on the value
/// of the next shorter suffix.
proof fn lemma_mod_div_step(accv: int, en: int, e1: int, rmn: int, ai: int, anv: int, pp: int)
    requires
        0 < pp,
        accv == emod(en, pp),
        en == rmn + ai * e1,
        emod(ai * anv, pp) == 1,
    ensures
        emod((accv - rmn) * anv, pp) == emod(e1, pp),
{
    vstd::arithmetic::div_mod::lemma_mod_twice(en, pp);
    vstd::arithmetic::div_mod::lemma_sub_mod_noop(accv, rmn, pp);
    vstd::arithmetic::div_mod::lemma_sub_mod_noop(en, rmn, pp);
    lemma_mul_mod_noop_left(accv - rmn, anv, pp);
    lemma_mul_mod_noop_left(en - rmn, anv, pp);
    assert((ai * e1) * anv == (ai * anv) * e1) by (nonlinear_arith);
    lemma_mul_mod_noop_left(ai * anv, e1, pp);
}

/// The quotient of the polynomial reduced modulo `p` by `x - a`, when `a`
/// is a root modulo the prime `p`: coefficient `n` is the value of the
/// degree-`n + 1` suffix of the reduced polynomial at `a`, taken modulo
/// `p`.
pub open spec fn mod_quot_spec(s: Seq<int>, a: int, p: int) -> Seq<int> {
    let rm = trim(emod_map(s, p));
    if rm.len() == 0 {
        Seq::empty()
    } else {
        Seq::new((rm.len() - 1) as nat, |n: int| emod(eval_at(suffix(rm, n + 1), a), p))
    }
}

/// Modular root/factor round trip: when `a` is a root of the polynomial
/// modulo `p`, multiplying the modular quotient back by `x - a` restores
/// the polynomial coefficientwise modulo `p`.
pub proof fn lemma_factor_root_mod_round_trip(s: Seq<int>, a: int, p: int)
    requires
        2 <= p,
        emod(eval_at(s, a), p) == 0,
    ensures
        forall|i: int|
            emod(coeff_of(mul_spec(mod_quot_spec(s, a, p), seq![-a, 1int]), i), p) == emod(
                #[trigger] coeff_of(s, i),
                p,
            ),
{
    let u = emod_map(s, p);
    let rm = trim(u);
    let mq = mod_quot_spec(s, a, p);
    let b = seq![-a, 1int];
    lemma_eval_trim(u, a);
    lemma_eval_mod_map(s, a, p);
    assert(emod(eval_at(rm, a), p) == 0);
    lemma_fundamental_div_mod_converse_mod(0, p, 0, 0);
    // Every coefficient of `s` is congruent to the matching coefficient of
    // the reduced, trimmed sequence.
    assert forall|i: int| emod(#[trigger] coeff_of(rm, i), p) == emod(coeff_of(s, i), p) by {
        lemma_trim_coeffs(u, i);
        if 0 <= i < s.len() {
            vstd::arithmetic::div_mod::lemma_mod_twice(s[i], p);
        }
    }
    if rm.len() == 0 {
        assert forall|i: int|
            emod(#[trigger] coeff_of(mul_spec(mq, b), i), p) == emod(coeff_of(s, i), p) by {
            assert(coeff_of(mul_spec(mq, b), i) == 0);
            assert(coeff_of(rm, i) == 0);
        }
    } else if rm.len() == 1 {
        lemma_trim_prefix(u);
        assert(rm.subrange(1, 1) =~= Seq::<int>::empty());
        assert(eval_at(rm, a) == rm[0] + a * eval_at(rm.subrange(1, rm.len() as int), a));
        lemma_mod_bound(s[0], p);
        vstd::arithmetic::div_mod::lemma_small_mod(rm[0] as nat, p as nat);
        crate::specs::lemma_trim_normal(u);
        assert(false);
    } else {
        let ll = rm.len() as int;
        lemma_trim_prefix(u);
        assert forall|j: int| 0 <= j < ll implies 0 <= #[trigger] rm[j] < p by {
            lemma_mod_bound(s[j], p);
        }
        assert(mq.len() == ll - 1);
        assert(mul_spec(mq, b).len() == ll);
        assert forall|i: int|
            emod(#[trigger] coeff_of(mul_spec(mq, b), i), p) == emod(coeff_of(rm, i), p) by {
            if 0 <= i < ll {
                lemma_conv_two(mq, b, i, i + 1);
                assert(coeff_of(mul_spec(mq, b), i) == conv_at(mq, b, i));
                if i == 0 {
                    lemma_suffix_zero(rm);
                    lemma_eval_suffix(rm, a, 0);
                    let e1 = eval_at(suffix(rm, 1), a);
                    vstd::arithmetic::div_mod::lemma_mod_twice(e1, p);
                    lemma_cong_affine(mq[0], e1, 0, eval_at(rm, a), -a, p);
                    assert(e1 * -a + eval_at(rm, a) == rm[0]) by (nonlinear_arith)
                        requires
                            eval_at(rm, a) == rm[0] + a * e1,
                    ;
                } else if i < ll - 1 {
                    lemma_eval_suffix(rm, a, i);
                    let ei = eval_at(suffix(rm, i + 1), a);
                    let eprev = eval_at(suffix(rm, i), a);
                    vstd::arithmetic::div_mod::lemma_mod_twice(ei, p);
                    vstd::arithmetic::div_mod::lemma_mod_twice(eprev, p);
                    lemma_cong_affine(mq[i], ei, mq[i - 1], eprev, -a, p);
                    assert(ei * -a + eprev == rm[i]) by (nonlinear_arith)
                        requires
                            eprev == rm[i] + a * ei,
                    ;
                } else {
                    lemma_eval_suffix(rm, a, ll - 1);
                    assert(suffix(rm, ll) =~= Seq::<int>::empty());
                    let eprev = eval_at(suffix(rm, ll - 1), a);
                    assert(eprev == rm[ll - 1]);
                    assert(coeff_of(mq, i) == 0);
                    assert(coeff_of(mq, i) * b[0] == 0) by (nonlinear_arith)
                        requires
                            coeff_of(mq, i) == 0,
                    ;
                    vstd::arithmetic::div_mod::lemma_mod_twice(eprev, p);
                }
            } else {
                assert(coeff_of(mul_spec(mq, b), i) == 0);
                assert(coeff_of(rm, i) == 0);
            }
        }
    }
}

/// The residues modulo 2 and 3 of the candidates that trial division may
/// skip: starting from a candidate that is 5 modulo 6, the next three odd
/// offsets are even or a multiple of 3.
proof fn lemma_six_residues(x: int)
    requires
        x % 6 == 5,
    ensures
        (x + 1) % 2 == 0,
        (x + 3) % 2 == 0,
        (x + 5) % 2 == 0,
        (x + 4) % 3 == 0,
{
    let q = x / 6;
    lemma_fundamental_div_mod(x, 6);
    lemma_fundamental_div_mod_converse_mod(x + 1, 2, 3 * q + 3, 0);
    lemma_fundamental_div_mod_converse_mod(x + 3, 2, 3 * q + 4, 0);
    lemma_fundamental_div_mod_converse_mod(x + 5, 2, 3 * q + 5, 0);
    lemma_fundamental_div_mod_converse_mod(x + 4, 3, 2 * q + 3, 0);
}

/// A divisor passes its own divisors through to the dividend; trial
/// division uses this to rule out even candidates and multiples of 3
/// wholesale.
proof fn lemma_skip_candidate(small: int, d: int, p: int)
    requires
        0 < small,
        d % small == 0,
        divides(d, p),
    ensures
        p % small == 0,
{
    lemma_divides_mod(small, d);
    lemma_divides_transitive(small, d, p);
    lemma_divides_mod(small, p);
}

impl Polynomial {
    /// Trial-division primality: after ruling out multiples of 2 and 3,
    /// only candidates of the form `6k + 5` and `6k + 7` up to the square
    /// root need testing.
    pub(crate) fn is_prime(p: usize) -> (r: bool)
        ensures
            r == is_prime_spec(p as int),
    {
        if p == 2 || p == 3 {
            proof {
                assert forall|d: int| 2 <= d < p implies !divides(d, p as int) by {
                    lemma_divides_mod(d, p as int);
                    lemma_fundamental_div_mod(p as int, d);
                    lemma_mod_bound(p as int, d);
                }
            }
            true
        } else if p == 1 || p % 2 == 0 || p % 3 == 0 {
            proof {
                let pp = p as int;
                if p >= 2 {
                    if p % 2 == 0 {
                        lemma_divides_mod(2, pp);
                        assert(divides(2, pp) && 2 < pp);
                    } else {
                        lemma_divides_mod(3, pp);
                        assert(divides(3, pp) && 3 < pp);
                    }
                }
            }
            false
        } else {
            let mut i: usize = 5;
            proof {
                let pp = p as int;
                lemma_divides_mod(2, pp);
                lemma_divides_mod(3, pp);
                assert forall|d: int| 2 <= d < 5 implies !divides(d, pp) by {
                    if d == 4 && divides(4, pp) {
                        lemma_fundamental_div_mod_converse_mod(4, 2, 2, 0);
                        lemma_skip_candidate(2, 4, pp);
                    }
                }
                lemma_fundamental_div_mod_converse_mod(5, 6, 0, 5);
            }
            while i <= p / i
                invariant
                    5 <= i,
                    (i as int) % 6 == 5,
                    p >= 5,
                    p % 2 != 0,
                    p % 3 != 0,
                    forall|d: int| 2 <= d < i ==> !divides(d, p as int),
                decreases p + 6 - i,
            {
                proof {
                    let ii = i as int;
                    let pp = p as int;
                    lemma_fundamental_div_mod(pp, ii);
                    lemma_mod_bound(pp, ii);
                    assert(ii * ii <= pp) by (nonlinear_arith)
                        requires
                            pp == ii * (pp / ii) + pp % ii,
                            0 <= pp % ii,
                            ii <= pp / ii,
                            0 < ii,
                    ;
                    assert(i <= p && 5 * (i as int) <= p as int) by (nonlinear_arith)
                        requires
                            (i as int) * (i as int) <= p as int,
                            5 <= i,
                    ;
                }
                if p % i == 0 {
                    proof {
                        lemma_divides_mod(i as int, p as int);
                        assert((i as int) < (i as int) * (i as int)) by (nonlinear_arith)
                            requires
                                5 <= i,
                        ;
                    }
                    return false;
                }
                if p % (i + 2) == 0 {
                    proof {
                        lemma_divides_mod(i as int + 2, p as int);
                        assert((i as int) + 2 < (i as int) * (i as int)) by (nonlinear_arith)
                            requires
                                5 <= i,
                        ;
                    }
                    return false;
                }
                proof {
                    let ii = i as int;
                    let pp = p as int;
                    lemma_six_residues(ii);
                    lemma_divides_mod(ii, pp);
                    lemma_divides_mod(ii + 2, pp);
                    assert forall|d: int| 2 <= d < ii + 6 implies !divides(d, pp) by {
                        if d >= ii && divides(d, pp) {
                            if d == ii + 1 || d == ii + 3 || d == ii + 5 {
                                lemma_skip_candidate(2, d, pp);
                            } else if d == ii + 4 {
                                lemma_skip_candidate(3, d, pp);
                            }
                        }
                    }
                    vstd::arithmetic::div_mod::lemma_mod_add_multiples_vanish(ii, 6);
                }
                i = i + 6;
            }
            proof {
                let ii = i as int;
                let pp = p as int;
                lemma_fundamental_div_mod(pp, ii);
                lemma_mod_bound(pp, ii);
                assert(pp < ii * ii) by (nonlinear_arith)
                    requires
                        pp == ii * (pp / ii) + pp % ii,
                        pp % ii < ii,
                        pp / ii < ii,
                        0 < ii,
                ;
                assert forall|d: int| 2 <= d < pp implies !divides(d, pp) by {
                    if divides(d, pp) && d >= i {
                        lemma_divides_mod(d, pp);
                        lemma_fundamental_div_mod(pp, d);
                        let e = pp / d;
                        assert(pp == d * e);
                        assert(2 <= e && e < ii) by (nonlinear_arith)
                            requires
                                pp == d * e,
                                2 <= d < pp,
                                ii <= d,
                                pp < ii * ii,
                                5 <= ii,
                        ;
                        assert(pp == e * d) by (nonlinear_arith)
                            requires
                                pp == d * e,
                        ;
                        assert(divides(e, pp));
                        assert(!divides(e, pp));
                    }
                }
            }
            true
        }
    }

    /// If `p` is prime and `a` is a root modulo `p`, the quotient by
    /// `x - a` of the polynomial with its coefficients reduced modulo `p`,
    /// by synthetic division with the division step carried out as
    /// multiplication by the modular inverse of `a`; otherwise no result.
    /// Primality is demanded because factorization over a composite modulus
    /// is not unique.
    pub fn factor_root_mod(&self, a: isize, p: isize) -> (res: Option<Polynomial>)
        requires
            self.wf(),
        ensures
            res.is_some() == (is_prime_spec(p as int) && emod(eval_at(self@, a as int), p as int)
                == 0),
            res matches Some(q) ==> q.wf() && q@ == mod_quot_spec(self@, a as int, p as int),
    {
        let ghost s = self@;
        let ghost pp = p as int;
        let ghost ai = a as int;
        if p < 2 {
            return None;
        }
        if !Polynomial::is_prime(p as usize) {
            return None;
        }
        if !self.has_root_mod(a, p) {
            return None;
        }
        let rm = self.rem_euclid(p);
        let ghost rv = rm@;
        proof {
            lemma_trim_prefix(emod_map(s, pp));
            assert forall|j: int| 0 <= j < rv.len() implies 0 <= #[trigger] rv[j] < pp by {
                lemma_mod_bound(s[j], pp);
            }
            lemma_eval_trim(emod_map(s, pp), ai);
            lemma_eval_mod_map(s, ai, pp);
            assert(emod(eval_at(rv, ai), pp) == 0);
        }
        let rl = rm.coeffs.len();
        if rl == 0 {
            return Some(Polynomial::zero());
        }
        let ar = crate::modular::eu_rem(a, p);
        if ar == 0 {
            let mut v: Vec<isize> = Vec::new();
            let mut i: usize = 1;
            while i < rl
                invariant
                    1 <= i <= rl,
                    rl == rm.coeffs@.len(),
                    v@.len() == i - 1,
                    forall|j: int| 0 <= j < i - 1 ==> v@[j] as int == rv[j + 1],
                decreases rl - i,
            {
                v.push(rm.coeffs[i]);
                i = i + 1;
            }
            let q = Polynomial { coeffs: v };
            proof {
                assert forall|n: int| 0 <= n < rl - 1 implies #[trigger] emod(
                    eval_at(suffix(rv, n + 1), ai),
                    pp,
                ) == rv[n + 1] by {
                    lemma_eval_suffix(rv, ai, n + 1);
                    let e2 = eval_at(suffix(rv, n + 2), ai);
                    lemma_mul_mod_noop_left(ai, e2, pp);
                    assert(0 * e2 == 0) by (nonlinear_arith);
                    lemma_fundamental_div_mod_converse_mod(0, pp, 0, 0);
                    vstd::arithmetic::div_mod::lemma_add_mod_noop_right(
                        rv[n + 1],
                        ai * e2,
                        pp,
                    );
                    vstd::arithmetic::div_mod::lemma_small_mod(
                        rv[n + 1] as nat,
                        pp as nat,
                    );
                }
                assert(q@ =~= mod_quot_spec(s, ai, pp));
            }
            return Some(q);
        }
        let ainv = Polynomial::inv_mod_p(ar, p);
        let ghost anv = ainv as int;
        proof {
            lemma_mul_mod_noop_left(ai, anv, pp);
            assert(emod(ai * anv, pp) == 1);
        }
        let pw: i128 = p as i128;
        let mut v: Vec<isize> = Vec::new();
        let mut acc: isize = 0;
        let mut n: usize = 0;
        proof {
            lemma_suffix_zero(rv);
        }
        while n < rl - 1
            invariant
                n <= rl - 1,
                rl == rm.coeffs@.len(),
                1 <= rl,
                v@.len() == n,
                forall|j: int|
                    0 <= j < n ==> v@[j] as int == emod(eval_at(suffix(rv, j + 1), ai), pp),
                0 <= acc < p,
                acc as int == emod(eval_at(suffix(rv, n as int), ai), pp),
            decreases rl - 1 - n,
        {
            let ghost e1 = eval_at(suffix(rv, n + 1), ai);
            let d = (acc as i128) - (rm.coeffs[n] as i128);
            proof {
                lemma_eval_suffix(rv, ai, n as int);
                assert((isize::MAX as i128) <= 0x7fff_ffff_ffff_ffffi128);
                assert(d * (ainv as i128) <= pw * pw && -(pw * pw) <= d * (ainv as i128)
                    && pw * pw < 0x4000_0000_0000_0000_0000_0000_0000_0000i128) by (
                nonlinear_arith)
                    requires
                        -pw <= d <= pw,
                        0 <= (ainv as i128) <= pw,
                        0 < pw <= 0x7fff_ffff_ffff_ffffi128,
                ;
                lemma_mod_div_step(acc as int, eval_at(suffix(rv, n as int), ai), e1,
                    rv[n as int], ai, anv, pp);
            }
            let t = d * (ainv as i128);
            let acc2w = eu_rem_i128(t, pw);
            let acc2 = acc2w as isize;
            v.push(acc2);
            acc = acc2;
            n = n + 1;
        }
        let q = Polynomial { coeffs: v };
        proof {
            assert(q@ =~= mod_quot_spec(s, ai, pp));
            if rl >= 2 {
                lemma_eval_suffix(rv, ai, rl - 1);
                assert(suffix(rv, rl as int) =~= Seq::<int>::empty());
                vstd::arithmetic::div_mod::lemma_small_mod(rv[rl - 1] as nat, pp as nat);
            }
        }
        Some(q)
    }

    /// The inverse of `a` modulo the prime `p`, by the extended Euclidean
    /// algorithm, with every Bezout coefficient kept reduced into `[0, p)`.
    pub(crate) fn inv_mod_p(a: isize, p: isize) -> (r: isize)
        requires
            1 <= a < p,
            is_prime_spec(p as int),
        ensures
            0 <= r < p,
            emod((a as int) * (r as int), p as int) == 1,
    {
        let ghost ai = a as int;
        let ghost pp = p as int;
        let pw: i128 = p as i128;
        let mut r0: i128 = a as i128;
        let mut r1: i128 = pw;
        let mut s0: i128 = 1;
        let mut s1: i128 = 0;
        proof {
            lemma_mod_bound(ai, pp);
            vstd::arithmetic::div_mod::lemma_small_mod(a as nat, p as nat);
            vstd::arithmetic::div_mod::lemma_mod_self_0(pp);
            assert(emod(ai * 1, pp) == emod(r0 as int, pp));
            assert(emod(ai * 0, pp) == emod(r1 as int, pp)) by {
                assert(ai * 0 == 0);
            }
        }
        while r1 != 0
            invariant
                0 < r0 <= pw,
                0 <= r1 <= pw,
                0 <= s0 < pw,
                0 <= s1 < pw,
                pw == pp,
                2 <= pp,
                emod(ai * (s0 as int), pp) == emod(r0 as int, pp),
                emod(ai * (s1 as int), pp) == emod(r1 as int, pp),
                forall|d: int|
                    1 <= d ==> ((divides(d, r0 as int) && divides(d, r1 as int)) <==> (divides(
                        d,
                        ai,
                    ) && divides(d, pp))),
            decreases r1,
        {
            let qo = r0.checked_div(r1);
            proof {
                lemma_fundamental_div_mod(r0 as int, r1 as int);
                lemma_mod_bound(r0 as int, r1 as int);
                vstd::arithmetic::div_mod::lemma_div_pos_is_pos(r0 as int, r1 as int);
                vstd::arithmetic::div_mod::lemma_div_nonincreasing(r0 as int, r1 as int);
                assert(qo == Some(((r0 as int) / (r1 as int)) as i128));
            }
            let q = qo.unwrap();
            proof {
                assert(r0 as int == (r1 as int) * (q as int) + (r0 as int) % (r1 as int));
                assert(0 <= (q as int) * (r1 as int) <= r0 as int && (r0 as int) - (q as int) * (
                r1 as int) == (r0 as int) % (r1 as int)) by (nonlinear_arith)
                    requires
                        r0 as int == (r1 as int) * (q as int) + (r0 as int) % (r1 as int),
                        0 <= (r0 as int) % (r1 as int),
                        0 < r1,
                        0 < r0,
                ;
                assert(q <= pw) by {
                    vstd::arithmetic::div_mod::lemma_div_is_ordered(r0 as int, pw as int,
                        r1 as int);
                    vstd::arithmetic::div_mod::lemma_div_nonincreasing(pw as int, r1 as int);
                }
                assert(0 <= q * s1 && q * s1 <= pw * pw) by (nonlinear_arith)
                    requires
                        0 <= q <= pw,
                        0 <= s1 < pw,
                        2 <= pw,
                ;
                assert((isize::MAX as i128) <= 0x7fff_ffff_ffff_ffffi128);
                assert(pw * pw < 0x4000_0000_0000_0000_0000_0000_0000_0000i128) by (
                nonlinear_arith)
                    requires
                        0 < pw <= 0x7fff_ffff_ffff_ffffi128,
                ;
            }
            let r2 = r0 - q * r1;
            let s2 = eu_rem_i128(s0 - q * s1, pw);
            proof {
                lemma_euclid_step(ai, pp, r0 as int, r1 as int, r2 as int, s0 as int, s1 as int,
                    s2 as int, q as int);
            }
            r0 = r1;
            r1 = r2;
            s0 = s1;
            s1 = s2;
        }
        proof {
            assert(divides(r0 as int, r0 as int)) by {
                assert(r0 as int == (r0 as int) * 1) by (nonlinear_arith);
            }
            assert(divides(r0 as int, r1 as int)) by {
                assert(r1 as int == (r0 as int) * 0) by (nonlinear_arith)
                    requires
                        r1 as int == 0,
                ;
            }
            assert(divides(r0 as int, ai) && divides(r0 as int, pp));
            if r0 as int != 1 {
                lemma_divides_le(r0 as int, ai);
                assert(2 <= r0 as int && r0 as int <= ai < pp);
                assert(!divides(r0 as int, pp));
                assert(false);
            }
            lemma_mod_bound(ai * (s0 as int), pp);
            vstd::arithmetic::div_mod::lemma_small_mod(1nat, p as nat);
        }
        s0 as isize
    }
}

/// One step of the extended Euclidean algorithm preserves the Bezout
/// congruences and the set of common divisors.
proof fn lemma_euclid_step(
    a: int,
    p: int,
    r0: int,
    r1: int,
    r2: int,
    s0: int,
    s1: int,
    s2: int,
    q: int,
)
    requires
        2 <= p,
        r2 == r0 - q * r1,
        s2 == emod(s0 - q * s1, p),
        emod(a * s0, p) == emod(r0, p),
        emod(a * s1, p) == emod(r1, p),
        forall|d: int|
            1 <= d ==> ((divides(d, r0) && divides(d, r1)) <==> (divides(d, a) && divides(d, p))),
    ensures
        emod(a * s2, p) == emod(r2, p),
        forall|d: int|
            1 <= d ==> ((divides(d, r1) && divides(d, r2)) <==> (divides(d, a) && divides(d, p))),
{
    // The congruence: a * s2 == a * (s0 - q * s1)  (mod p), and
    // a * (s0 - q * s1) == a * s0 - q * (a * s1) == r0 - q * r1 == r2 (mod p).
    vstd::arithmetic::div_mod::lemma_mul_mod_noop_right(a, s0 - q * s1, p);
    assert(emod(a * (s0 - q * s1), p) == emod(a * s2, p)) by {
        assert((s0 - q * s1) % p == s2 % p) by {
            vstd::arithmetic::div_mod::lemma_mod_twice(s0 - q * s1, p);
        }
        vstd::arithmetic::div_mod::lemma_mul_mod_noop_right(a, s2, p);
    }
    assert(a * (s0 - q * s1) == a * s0 - q * (a * s1)) by (nonlinear_arith);
    // Subtracting q copies of a * s1 subtracts q copies of r1, modulo p.
    lemma_sub_multiple_mod(a * s0, a * s1, r0, r1, q, p);
    // Common divisors are carried across the step in both directions.
    assert forall|d: int| 1 <= d implies ((divides(d, r1) && divides(d, r2)) <==> (divides(d, a)
        && divides(d, p))) by {
        if divides(d, r1) && divides(d, r2) {
            lemma_divides_linear(d, r2, r1, -q);
            assert(r2 - (-q) * r1 == r0) by (nonlinear_arith)
                requires
                    r2 == r0 - q * r1,
            ;
        }
        if divides(d, a) && divides(d, p) {
            lemma_divides_linear(d, r0, r1, q);
        }
    }
}

/// If `x == x'` and `y == y'` modulo `p`, then `x - q * y == x' - q * y'`
/// modulo `p`.
proof fn lemma_sub_multiple_mod(x: int, y: int, x2: int, y2: int, q: int, p: int)
    requires
        0 < p,
        emod(x, p) == emod(x2, p),
        emod(y, p) == emod(y2, p),
    ensures
        emod(x - q * y, p) == emod(x2 - q * y2, p),
{
    vstd::arithmetic::div_mod::lemma_mul_mod_noop_right(q, y, p);
    vstd::arithmetic::div_mod::lemma_mul_mod_noop_right(q, y2, p);
    vstd::arithmetic::div_mod::lemma_sub_mod_noop(x, q * y, p);
    vstd::arithmetic::div_mod::lemma_sub_mod_noop(x2, q * y2, p);
}

/// Taking the accumulator modulo `md` at every Horner step does not change
/// the value modulo `md`.
proof fn lemma_horner_step(e: int, c: int, x: int, md: int)
    requires
        0 < md,
    ensures
        emod(emod(e, md) * x + c, md) == emod(x * e + c, md),
{
    lemma_mul_mod_noop_left(e, x, md);
    lemma_add_mod_noop((e % md) * x, c, md);
    lemma_add_mod_noop(e * x, c, md);
    assert(x * e == e * x) by (nonlinear_arith);
}

} // verus!
