//! Polynomial subtraction and negation: by-value, by-reference and in-place
//! forms, scalar variants, and the additive-inverse law.
use vstd::prelude::*;

use crate::specs::{
    add_raw, add_spec, cseq, coeff_of, fits, is_normal, lemma_trim_all_zero, lemma_trim_normal,
    lemma_trim_of_normal, neg_spec, pad_len, sub_raw, sub_spec, to_ints, trim,
};
use crate::Polynomial;

verus! {

/// Every coefficient of the difference of `a` and `b` fits in a machine
/// word.
pub open spec fn sub_fits(a: Seq<int>, b: Seq<int>) -> bool {
    forall|i: int| fits(coeff_of(a, i) - coeff_of(b, i))
}

/// Every negated coefficient of `a` fits in a machine word.
pub open spec fn neg_fits(a: Seq<int>) -> bool {
    forall|i: int| 0 <= i < a.len() ==> fits(-a[i])
}

impl Polynomial {
    /// The additive inverse, consuming `self`: every coefficient is negated.
    /// Canonical form is preserved, since no nonzero coefficient becomes
    /// zero.
    pub fn neg(self) -> (r: Polynomial)
        requires
            self.wf(),
            neg_fits(self@),
        ensures
            r.wf(),
            r@ == neg_spec(self@),
    {
        let ghost a = self@;
        let mut out = self;
        let mut i: usize = 0;
        while i < out.coeffs.len()
            invariant
                i <= out.coeffs@.len(),
                out.coeffs@.len() == a.len(),
                forall|j: int| 0 <= j < i ==> out.coeffs@[j] as int == -a[j],
                forall|j: int| i <= j < a.len() ==> out.coeffs@[j] as int == a[j],
            decreases out.coeffs@.len() - i,
        {
            proof {
                assert(fits(-a[i as int]));
            }
            let t = -out.coeffs[i];
            out.coeffs[i] = t;
            i = i + 1;
        }
        proof {
            assert(out@ =~= neg_spec(a));
        }
        out
    }

    /// The additive inverse, allocating a fresh result.
    pub fn neg_ref(&self) -> (r: Polynomial)
        requires
            self.wf(),
            neg_fits(self@),
        ensures
            r.wf(),
            r@ == neg_spec(self@),
    {
        let mut v: Vec<isize> = Vec::new();
        let mut i: usize = 0;
        while i < self.coeffs.len()
            invariant
                i <= self.coeffs@.len(),
                v@.len() == i,
                forall|j: int| 0 <= j < i ==> v@[j] as int == -self@[j],
            decreases self.coeffs@.len() - i,
        {
            proof {
                assert(fits(-self@[i as int]));
            }
            v.push(-self.coeffs[i]);
            i = i + 1;
        }
        let r = Polynomial { coeffs: v };
        proof {
            assert(r@ =~= neg_spec(self@));
        }
        r
    }

    /// Subtract in place: afterwards `self` is the difference of its old
    /// value and `rhs`, in canonical form.
    pub fn sub_assign(&mut self, rhs: &Polynomial)
        requires
            old(self).wf(),
            rhs.wf(),
            sub_fits(old(self)@, rhs@),
        ensures
            final(self).wf(),
            final(self)@ == sub_spec(old(self)@, rhs@),
    {
        let ghost a = self@;
        let ghost b = rhs@;
        if self.coeffs.len() == 0 {
            let mut i: usize = 0;
            while i < rhs.coeffs.len()
                invariant
                    i <= rhs.coeffs@.len(),
                    self.coeffs@.len() == i,
                    forall|j: int| 0 <= j < i ==> self.coeffs@[j] as int == -b[j],
                decreases rhs.coeffs@.len() - i,
            {
                proof {
                    assert(fits(coeff_of(a, i as int) - coeff_of(b, i as int)));
                }
                self.coeffs.push(-rhs.coeffs[i]);
                i = i + 1;
            }
            proof {
                assert(to_ints(self.coeffs@) =~= sub_raw(a, b));
                assert(is_normal(self@));
                lemma_trim_of_normal(self@);
            }
        } else if rhs.coeffs.len() == 0 {
            proof {
                assert(sub_raw(a, b) =~= a);
                lemma_trim_of_normal(a);
            }
        } else {
            let sl = self.coeffs.len();
            let rl = rhs.coeffs.len();
            let lo = if sl < rl {
                sl
            } else {
                rl
            };
            let mut i: usize = 0;
            while i < lo
                invariant
                    i <= lo,
                    lo <= self.coeffs@.len(),
                    lo <= rhs.coeffs@.len(),
                    self.coeffs@.len() == a.len(),
                    forall|j: int| 0 <= j < i ==> self.coeffs@[j] as int == a[j] - b[j],
                    forall|j: int| i <= j < a.len() ==> self.coeffs@[j] as int == a[j],
                decreases lo - i,
            {
                proof {
                    assert(fits(coeff_of(a, i as int) - coeff_of(b, i as int)));
                }
                let t = self.coeffs[i] - rhs.coeffs[i];
                self.coeffs[i] = t;
                i = i + 1;
            }
            let mut k: usize = lo;
            while k < rhs.coeffs.len()
                invariant
                    lo <= k <= rhs.coeffs@.len(),
                    self.coeffs@.len() as int == (if a.len() as int >= k as int {
                        a.len() as int
                    } else {
                        k as int
                    }),
                    forall|j: int| 0 <= j < lo ==> self.coeffs@[j] as int == a[j] - b[j],
                    forall|j: int| lo <= j < a.len() ==> self.coeffs@[j] as int == a[j],
                    forall|j: int| a.len() <= j < k ==> self.coeffs@[j] as int == -b[j],
                decreases rhs.coeffs@.len() - k,
            {
                proof {
                    assert(fits(coeff_of(a, k as int) - coeff_of(b, k as int)));
                }
                self.coeffs.push(-rhs.coeffs[k]);
                k = k + 1;
            }
            proof {
                assert(to_ints(self.coeffs@) =~= sub_raw(a, b));
            }
            self.reduce();
            proof {
                lemma_trim_normal(sub_raw(a, b));
            }
        }
    }

    /// The difference of `self` and `rhs`, consuming both, in canonical
    /// form.
    pub fn sub(self, rhs: Polynomial) -> (r: Polynomial)
        requires
            self.wf(),
            rhs.wf(),
            sub_fits(self@, rhs@),
        ensures
            r.wf(),
            r@ == sub_spec(self@, rhs@),
    {
        let mut out = self;
        out.sub_assign(&rhs);
        out
    }

    /// The difference of `self` and `rhs`, leaving both operands in place
    /// and allocating a fresh result, in canonical form.
    pub fn sub_ref(&self, rhs: &Polynomial) -> (r: Polynomial)
        requires
            self.wf(),
            rhs.wf(),
            sub_fits(self@, rhs@),
        ensures
            r.wf(),
            r@ == sub_spec(self@, rhs@),
    {
        let sl = self.coeffs.len();
        let rl = rhs.coeffs.len();
        let m = if sl >= rl {
            sl
        } else {
            rl
        };
        let mut v: Vec<isize> = Vec::new();
        let mut i: usize = 0;
        while i < m
            invariant
                i <= m,
                sl == self@.len(),
                rl == rhs@.len(),
                m == pad_len(self@, rhs@),
                v@.len() == i,
                forall|j: int|
                    0 <= j < i ==> v@[j] as int == coeff_of(self@, j) - coeff_of(rhs@, j),
            decreases m - i,
        {
            proof {
                assert(fits(coeff_of(self@, i as int) - coeff_of(rhs@, i as int)));
            }
            let c: isize = if i < sl {
                self.coeffs[i]
            } else {
                0
            };
            let d: isize = if i < rl {
                rhs.coeffs[i]
            } else {
                0
            };
            v.push(c - d);
            i = i + 1;
        }
        proof {
            assert(to_ints(v@) =~= sub_raw(self@, rhs@));
        }
        Polynomial::new(v)
    }

    /// Subtract the scalar `c` from the constant term, in canonical form.
    pub fn sub_assign_scalar(&mut self, c: isize)
        requires
            old(self).wf(),
            fits(coeff_of(old(self)@, 0) - c),
        ensures
            final(self).wf(),
            final(self)@ == sub_spec(old(self)@, cseq(c as int)),
    {
        let ghost a = self@;
        if self.coeffs.len() == 0 {
            if c != 0 {
                proof {
                    assert(fits(coeff_of(a, 0) - c));
                }
                self.coeffs.push(0 - c);
            }
            proof {
                assert(sub_raw(a, cseq(c as int)) =~= self@);
                lemma_trim_of_normal(self@);
            }
        } else {
            let t = self.coeffs[0] - c;
            self.coeffs[0] = t;
            proof {
                assert(to_ints(self.coeffs@) =~= sub_raw(a, cseq(c as int)));
            }
            self.reduce();
            proof {
                lemma_trim_normal(sub_raw(a, cseq(c as int)));
            }
        }
    }

    /// The difference of `self` and the constant polynomial `c`, consuming
    /// `self`.
    pub fn sub_scalar(self, c: isize) -> (r: Polynomial)
        requires
            self.wf(),
            fits(coeff_of(self@, 0) - c),
        ensures
            r.wf(),
            r@ == sub_spec(self@, cseq(c as int)),
    {
        let mut out = self;
        out.sub_assign_scalar(c);
        out
    }

    /// The difference of `self` and the constant polynomial `c`, allocating
    /// a fresh result.
    pub fn sub_scalar_ref(&self, c: isize) -> (r: Polynomial)
        requires
            self.wf(),
            fits(coeff_of(self@, 0) - c),
        ensures
            r.wf(),
            r@ == sub_spec(self@, cseq(c as int)),
    {
        let mut out = self.clone();
        out.sub_assign_scalar(c);
        out
    }
}

/// Additive inverse: a canonical polynomial plus its negation is the zero
/// polynomial, on either side.
pub proof fn lemma_add_neg(a: Seq<int>)
    ensures
        add_spec(a, neg_spec(a)) == Seq::<int>::empty(),
        add_spec(neg_spec(a), a) == Seq::<int>::empty(),
{
    lemma_trim_all_zero(add_raw(a, neg_spec(a)));
    lemma_trim_all_zero(add_raw(neg_spec(a), a));
}

/// Subtraction is addition of the negation.
pub proof fn lemma_sub_is_add_neg(a: Seq<int>, b: Seq<int>)
    ensures
        sub_spec(a, b) == add_spec(a, neg_spec(b)),
{
    assert(sub_raw(a, b) =~= add_raw(a, neg_spec(b)));
}

} // verus!
