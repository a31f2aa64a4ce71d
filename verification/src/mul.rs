//! Polynomial multiplication: the convolution spec, by-value, by-reference
//! and in-place forms, scalar variants, and the multiplicative laws
//! (commutativity, zero annihilation, the degree law).
use vstd::prelude::*;

use crate::specs::{
    coeff_of, fits, is_normal, lemma_trim_of_normal, scale_spec, to_ints, trim,
};
use crate::Polynomial;

verus! {

/// The sum of the first `k` products `a[n] * b[i - n]` of the degree-`i`
/// convolution coefficient, for `n` in `[0, k)`; indices outside either
/// sequence contribute 0.
pub open spec fn conv_sum(a: Seq<int>, b: Seq<int>, i: int, k: int) -> int
    decreases k,
{
    if k <= 0 {
        0
    } else {
        conv_sum(a, b, i, k - 1) + coeff_of(a, k - 1) * coeff_of(b, i - (k - 1))
    }
}

/// The degree-`i` coefficient of the product of `a` and `b`: the full
/// convolution sum over `n` in `[0, i]`.
pub open spec fn conv_at(a: Seq<int>, b: Seq<int>, i: int) -> int {
    conv_sum(a, b, i, i + 1)
}

/// The product of `a` and `b`. If either operand is zero the product is the
/// zero polynomial; otherwise the coefficients are the convolution sums.
/// Over the integers the leading coefficient is a product of nonzero values,
/// so the result of multiplying canonical sequences is canonical.
pub open spec fn mul_spec(a: Seq<int>, b: Seq<int>) -> Seq<int> {
    if a.len() == 0 || b.len() == 0 {
        Seq::empty()
    } else {
        Seq::new((a.len() + b.len() - 1) as nat, |i: int| conv_at(a, b, i))
    }
}

/// Every partial convolution sum and every single product of the
/// multiplication of `a` and `b` fits in a machine word.
pub open spec fn mul_fits(a: Seq<int>, b: Seq<int>) -> bool {
    &&& forall|i: int, k: int|
        0 <= i < a.len() + b.len() && 0 <= k <= i + 1 ==> fits(conv_sum(a, b, i, k))
    &&& forall|i: int, n: int|
        0 <= i < a.len() + b.len() && 0 <= n <= i ==> fits(
            #[trigger] (coeff_of(a, n) * coeff_of(b, i - n)),
        )
}

/// The first `k` terms of the convolution of `a` with `b` are the last `k`
/// terms of the convolution of `b` with `a`.
proof fn lemma_conv_swap(a: Seq<int>, b: Seq<int>, i: int, k: int)
    requires
        0 <= k <= i + 1,
    ensures
        conv_sum(a, b, i, k) == conv_at(b, a, i) - conv_sum(b, a, i, i + 1 - k),
    decreases k,
{
    if k > 0 {
        lemma_conv_swap(a, b, i, k - 1);
        assert(conv_sum(b, a, i, i + 2 - k) == conv_sum(b, a, i, i + 1 - k) + coeff_of(
            b,
            i + 1 - k,
        ) * coeff_of(a, k - 1));
        assert(coeff_of(b, i + 1 - k) * coeff_of(a, k - 1) == coeff_of(a, k - 1) * coeff_of(
            b,
            i - (k - 1),
        )) by (nonlinear_arith);
    }
}

/// Convolution coefficients are symmetric in the operands.
pub proof fn lemma_conv_comm(a: Seq<int>, b: Seq<int>, i: int)
    ensures
        conv_at(a, b, i) == conv_at(b, a, i),
{
    if i >= 0 {
        lemma_conv_swap(a, b, i, i + 1);
    }
}

/// Multiplication of polynomials is commutative.
pub proof fn lemma_mul_comm(a: Seq<int>, b: Seq<int>)
    ensures
        mul_spec(a, b) == mul_spec(b, a),
{
    if a.len() != 0 && b.len() != 0 {
        assert forall|i: int| 0 <= i < a.len() + b.len() - 1 implies mul_spec(a, b)[i]
            == mul_spec(b, a)[i] by {
            lemma_conv_comm(a, b, i);
        }
        assert(mul_spec(a, b) =~= mul_spec(b, a));
    }
}

/// Multiplying by the zero polynomial, on either side, gives the zero
/// polynomial.
pub proof fn lemma_mul_zero(a: Seq<int>)
    ensures
        mul_spec(a, Seq::<int>::empty()) == Seq::<int>::empty(),
        mul_spec(Seq::<int>::empty(), a) == Seq::<int>::empty(),
{
}

/// In the top convolution coefficient every term vanishes except the product
/// of the leading coefficients.
proof fn lemma_conv_top_partial(a: Seq<int>, b: Seq<int>, k: int)
    requires
        a.len() > 0,
        b.len() > 0,
        0 <= k <= a.len() + b.len() - 1,
    ensures
        conv_sum(a, b, a.len() + b.len() - 2, k) == (if k >= a.len() {
            a.last() * b.last()
        } else {
            0
        }),
    decreases k,
{
    if k > 0 {
        lemma_conv_top_partial(a, b, k - 1);
    }
}

/// Against a two-coefficient multiplier, only the terms at `n == i` and
/// `n == i - 1` of a convolution sum can be nonzero.
pub proof fn lemma_conv_two(q: Seq<int>, b: Seq<int>, i: int, k: int)
    requires
        b.len() == 2,
        0 <= k,
    ensures
        conv_sum(q, b, i, k) == (if 0 <= i < k {
            coeff_of(q, i) * b[0]
        } else {
            0
        }) + (if 0 <= i - 1 < k {
            coeff_of(q, i - 1) * b[1]
        } else {
            0
        }),
    decreases k,
{
    if k > 0 {
        lemma_conv_two(q, b, i, k - 1);
        let n = k - 1;
        if i - n != 0 && i - n != 1 {
            assert(coeff_of(b, i - n) == 0);
            assert(coeff_of(q, n) * coeff_of(b, i - n) == 0) by (nonlinear_arith)
                requires
                    coeff_of(b, i - n) == 0,
            ;
        }
    }
}

/// The product of nonzero canonical polynomials is canonical, has degree
/// equal to the sum of the degrees, and its leading coefficient is the
/// product of the leading coefficients.
pub proof fn lemma_mul_normal(a: Seq<int>, b: Seq<int>)
    requires
        is_normal(a),
        is_normal(b),
    ensures
        is_normal(mul_spec(a, b)),
        a.len() > 0 && b.len() > 0 ==> mul_spec(a, b).len() == a.len() + b.len() - 1
            && mul_spec(a, b).last() == a.last() * b.last(),
{
    if a.len() > 0 && b.len() > 0 {
        lemma_conv_top_partial(a, b, a.len() + b.len() - 1);
        assert(a.last() * b.last() != 0) by (nonlinear_arith)
            requires
                a.last() != 0,
                b.last() != 0,
        ;
    }
}

/// Degree law: when neither operand is zero, the degree of the product is
/// the sum of the degrees (over the integers the leading coefficients'
/// product cannot vanish).
pub proof fn lemma_mul_degree(a: Seq<int>, b: Seq<int>)
    requires
        is_normal(a),
        is_normal(b),
        a.len() > 0,
        b.len() > 0,
    ensures
        mul_spec(a, b).len() - 1 == (a.len() - 1) + (b.len() - 1),
{
    lemma_mul_normal(a, b);
}

impl Polynomial {
    /// The product of `self` and `rhs`, leaving both operands in place and
    /// allocating a fresh result, in canonical form.
    pub fn mul_ref(&self, rhs: &Polynomial) -> (r: Polynomial)
        requires
            self.wf(),
            rhs.wf(),
            self@.len() + rhs@.len() <= isize::MAX as int + 1,
            mul_fits(self@, rhs@),
        ensures
            r.wf(),
            r@ == mul_spec(self@, rhs@),
    {
        let ghost a = self@;
        let ghost b = rhs@;
        let la = self.coeffs.len();
        let lb = rhs.coeffs.len();
        if la == 0 || lb == 0 {
            return Polynomial::zero();
        }
        let n_out = la + lb - 1;
        let mut out: Vec<isize> = Vec::new();
        let mut i: usize = 0;
        while i < n_out
            invariant
                i <= n_out,
                out@.len() == i,
                forall|j: int| 0 <= j < i ==> out@[j] as int == conv_at(a, b, j),
            decreases n_out - i,
        {
            let mut acc: isize = 0;
            let mut n: usize = 0;
            while n <= i
                invariant
                    n <= i + 1,
                    i < n_out,
                    acc as int == conv_sum(a, b, i as int, n as int),
                decreases i + 1 - n,
            {
                if n < la && i - n < lb {
                    proof {
                        assert(fits(coeff_of(a, n as int) * coeff_of(b, i - n)));
                        assert(fits(conv_sum(a, b, i as int, n + 1)));
                    }
                    let prod = self.coeffs[n] * rhs.coeffs[i - n];
                    acc = acc + prod;
                } else {
                    proof {
                        assert(coeff_of(a, n as int) * coeff_of(b, i - n) == 0) by (
                        nonlinear_arith)
                            requires
                                coeff_of(a, n as int) == 0 || coeff_of(b, i - n) == 0,
                        ;
                    }
                }
                n = n + 1;
            }
            out.push(acc);
            i = i + 1;
        }
        proof {
            assert(to_ints(out@) =~= mul_spec(a, b));
            lemma_mul_normal(a, b);
            lemma_trim_of_normal(mul_spec(a, b));
        }
        Polynomial::new(out)
    }

    /// The product of `self` and `rhs`, consuming both, in canonical form.
    pub fn mul(self, rhs: Polynomial) -> (r: Polynomial)
        requires
            self.wf(),
            rhs.wf(),
            self@.len() + rhs@.len() <= isize::MAX as int + 1,
            mul_fits(self@, rhs@),
        ensures
            r.wf(),
            r@ == mul_spec(self@, rhs@),
    {
        self.mul_ref(&rhs)
    }

    /// Multiply in place: afterwards `self` is the product of its old value
    /// and `rhs`, in canonical form.
    pub fn mul_assign(&mut self, rhs: &Polynomial)
        requires
            old(self).wf(),
            rhs.wf(),
            old(self)@.len() + rhs@.len() <= isize::MAX as int + 1,
            mul_fits(old(self)@, rhs@),
        ensures
            final(self).wf(),
            final(self)@ == mul_spec(old(self)@, rhs@),
    {
        let r = self.mul_ref(rhs);
        *self = r;
    }

    /// The product of `self` and the scalar `c`, leaving `self` in place and
    /// allocating a fresh result; multiplying by 0, or multiplying the zero
    /// polynomial, gives the zero polynomial.
    pub fn mul_scalar_ref(&self, c: isize) -> (r: Polynomial)
        requires
            self.wf(),
            forall|i: int| 0 <= i < self@.len() ==> fits(self@[i] * c),
        ensures
            r.wf(),
            r@ == scale_spec(self@, c as int),
    {
        if c == 0 || self.coeffs.len() == 0 {
            return Polynomial::zero();
        }
        let mut v: Vec<isize> = Vec::new();
        let mut i: usize = 0;
        while i < self.coeffs.len()
            invariant
                i <= self.coeffs@.len(),
                v@.len() == i,
                forall|j: int| 0 <= j < i ==> v@[j] as int == self@[j] * (c as int),
            decreases self.coeffs@.len() - i,
        {
            proof {
                assert(fits(self@[i as int] * c));
            }
            v.push(self.coeffs[i] * c);
            i = i + 1;
        }
        let r = Polynomial { coeffs: v };
        proof {
            assert(r@ =~= scale_spec(self@, c as int));
            assert(self@.last() * c != 0) by (nonlinear_arith)
                requires
                    self@.last() != 0,
                    c != 0,
            ;
        }
        r
    }

    /// The product of `self` and the scalar `c`, consuming `self`.
    pub fn mul_scalar(self, c: isize) -> (r: Polynomial)
        requires
            self.wf(),
            forall|i: int| 0 <= i < self@.len() ==> fits(self@[i] * c),
        ensures
            r.wf(),
            r@ == scale_spec(self@, c as int),
    {
        self.mul_scalar_ref(c)
    }

    /// Multiply by the scalar `c` in place.
    pub fn mul_assign_scalar(&mut self, c: isize)
        requires
            old(self).wf(),
            forall|i: int| 0 <= i < old(self)@.len() ==> fits(old(self)@[i] * c),
        ensures
            final(self).wf(),
            final(self)@ == scale_spec(old(self)@, c as int),
    {
        let r = self.mul_scalar_ref(c);
        *self = r;
    }
}

} // verus!
