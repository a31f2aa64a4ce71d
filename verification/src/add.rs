//! Polynomial addition: by-value, by-reference and in-place forms, scalar
//! variants, and the additive laws. All forms of one operation share one
//! contract, so any two of them agree on equal operands.
use vstd::prelude::*;

use crate::specs::{
    add_raw, add_spec, cseq, coeff_of, fits, is_normal, lemma_normal_unique, lemma_trim_coeffs,
    lemma_trim_normal, lemma_trim_of_normal, pad_len, to_ints, trim,
};
use crate::Polynomial;

verus! {

/// Every coefficient of the sum of `a` and `b` fits in a machine word.
pub open spec fn add_fits(a: Seq<int>, b: Seq<int>) -> bool {
    forall|i: int| fits(coeff_of(a, i) + coeff_of(b, i))
}

/// The padded pointwise sum has exactly the sums as coefficients, at every
/// index.
pub proof fn lemma_add_raw_coeff(a: Seq<int>, b: Seq<int>, i: int)
    ensures
        coeff_of(add_raw(a, b), i) == coeff_of(a, i) + coeff_of(b, i),
{
}

impl Polynomial {
    /// Add in place: afterwards `self` is the sum of its old value and `rhs`,
    /// in canonical form.
    pub fn add_assign(&mut self, rhs: &Polynomial)
        requires
            old(self).wf(),
            rhs.wf(),
            add_fits(old(self)@, rhs@),
        ensures
            final(self).wf(),
            final(self)@ == add_spec(old(self)@, rhs@),
    {
        let ghost a = self@;
        let ghost b = rhs@;
        if self.coeffs.len() == 0 {
            let mut i: usize = 0;
            proof {
                assert(self.coeffs@ =~= rhs.coeffs@.subrange(0, 0));
            }
            while i < rhs.coeffs.len()
                invariant
                    i <= rhs.coeffs@.len(),
                    self.coeffs@ == rhs.coeffs@.subrange(0, i as int),
                decreases rhs.coeffs@.len() - i,
            {
                self.coeffs.push(rhs.coeffs[i]);
                proof {
                    assert(self.coeffs@ =~= rhs.coeffs@.subrange(0, i + 1));
                }
                i = i + 1;
            }
            proof {
                assert(self.coeffs@ =~= rhs.coeffs@);
                assert(add_raw(a, b) =~= b);
                lemma_trim_of_normal(b);
            }
        } else if rhs.coeffs.len() == 0 {
            proof {
                assert(add_raw(a, b) =~= a);
                lemma_trim_of_normal(a);
            }
        } else {
            let sl = self.coeffs.len();
            let rl = rhs.coeffs.len();
            let lo = if sl < rl {
                sl
            } else {
                rl
            };
            let mut i: usize = 0;
            while i < lo
                invariant
                    i <= lo,
                    lo <= self.coeffs@.len(),
                    lo <= rhs.coeffs@.len(),
                    self.coeffs@.len() == a.len(),
                    forall|j: int| 0 <= j < i ==> self.coeffs@[j] as int == a[j] + b[j],
                    forall|j: int| i <= j < a.len() ==> self.coeffs@[j] as int == a[j],
                decreases lo - i,
            {
                proof {
                    assert(fits(coeff_of(a, i as int) + coeff_of(b, i as int)));
                }
                let t = self.coeffs[i] + rhs.coeffs[i];
                self.coeffs[i] = t;
                i = i + 1;
            }
            let mut k: usize = lo;
            while k < rhs.coeffs.len()
                invariant
                    lo <= k <= rhs.coeffs@.len(),
                    self.coeffs@.len() as int == (if a.len() as int >= k as int {
                        a.len() as int
                    } else {
                        k as int
                    }),
                    forall|j: int| 0 <= j < lo ==> self.coeffs@[j] as int == a[j] + b[j],
                    forall|j: int| lo <= j < a.len() ==> self.coeffs@[j] as int == a[j],
                    forall|j: int| a.len() <= j < k ==> self.coeffs@[j] as int == b[j],
                decreases rhs.coeffs@.len() - k,
            {
                self.coeffs.push(rhs.coeffs[k]);
                k = k + 1;
            }
            proof {
                assert(to_ints(self.coeffs@) =~= add_raw(a, b));
            }
            self.reduce();
            proof {
                lemma_trim_normal(add_raw(a, b));
            }
        }
    }

    /// The sum of `self` and `rhs`, consuming both, in canonical form.
    pub fn add(self, rhs: Polynomial) -> (r: Polynomial)
        requires
            self.wf(),
            rhs.wf(),
            add_fits(self@, rhs@),
        ensures
            r.wf(),
            r@ == add_spec(self@, rhs@),
    {
        let mut out = self;
        out.add_assign(&rhs);
        out
    }

    /// The sum of `self` and `rhs`, leaving both operands in place and
    /// allocating a fresh result, in canonical form.
    pub fn add_ref(&self, rhs: &Polynomial) -> (r: Polynomial)
        requires
            self.wf(),
            rhs.wf(),
            add_fits(self@, rhs@),
        ensures
            r.wf(),
            r@ == add_spec(self@, rhs@),
    {
        let sl = self.coeffs.len();
        let rl = rhs.coeffs.len();
        let m = if sl >= rl {
            sl
        } else {
            rl
        };
        let mut v: Vec<isize> = Vec::new();
        let mut i: usize = 0;
        while i < m
            invariant
                i <= m,
                sl == self@.len(),
                rl == rhs@.len(),
                m == pad_len(self@, rhs@),
                v@.len() == i,
                forall|j: int|
                    0 <= j < i ==> v@[j] as int == coeff_of(self@, j) + coeff_of(rhs@, j),
            decreases m - i,
        {
            proof {
                assert(fits(coeff_of(self@, i as int) + coeff_of(rhs@, i as int)));
            }
            let c: isize = if i < sl {
                self.coeffs[i]
            } else {
                0
            };
            let d: isize = if i < rl {
                rhs.coeffs[i]
            } else {
                0
            };
            v.push(c + d);
            i = i + 1;
        }
        proof {
            assert(to_ints(v@) =~= add_raw(self@, rhs@));
        }
        Polynomial::new(v)
    }

    /// Add the scalar `c` to the constant term, in canonical form; adding to
    /// the zero polynomial gives the constant polynomial `c`.
    pub fn add_assign_scalar(&mut self, c: isize)
        requires
            old(self).wf(),
            fits(coeff_of(old(self)@, 0) + c),
        ensures
            final(self).wf(),
            final(self)@ == add_spec(old(self)@, cseq(c as int)),
    {
        let ghost a = self@;
        if self.coeffs.len() == 0 {
            if c != 0 {
                self.coeffs.push(c);
            }
            proof {
                assert(add_raw(a, cseq(c as int)) =~= self@);
                lemma_trim_of_normal(self@);
            }
        } else {
            let t = self.coeffs[0] + c;
            self.coeffs[0] = t;
            proof {
                assert(to_ints(self.coeffs@) =~= add_raw(a, cseq(c as int)));
            }
            self.reduce();
            proof {
                lemma_trim_normal(add_raw(a, cseq(c as int)));
            }
        }
    }

    /// The sum of `self` and the constant polynomial `c`, consuming `self`.
    pub fn add_scalar(self, c: isize) -> (r: Polynomial)
        requires
            self.wf(),
            fits(coeff_of(self@, 0) + c),
        ensures
            r.wf(),
            r@ == add_spec(self@, cseq(c as int)),
    {
        let mut out = self;
        out.add_assign_scalar(c);
        out
    }

    /// The sum of `self` and the constant polynomial `c`, allocating a fresh
    /// result.
    pub fn add_scalar_ref(&self, c: isize) -> (r: Polynomial)
        requires
            self.wf(),
            fits(coeff_of(self@, 0) + c),
        ensures
            r.wf(),
            r@ == add_spec(self@, cseq(c as int)),
    {
        let mut out = self.clone();
        out.add_assign_scalar(c);
        out
    }
}

/// Additive identity: adding the zero polynomial on either side leaves a
/// canonical polynomial unchanged.
pub proof fn lemma_add_zero(a: Seq<int>)
    requires
        is_normal(a),
    ensures
        add_spec(a, Seq::<int>::empty()) == a,
        add_spec(Seq::<int>::empty(), a) == a,
{
    assert(add_raw(a, Seq::<int>::empty()) =~= a);
    assert(add_raw(Seq::<int>::empty(), a) =~= a);
    lemma_trim_of_normal(a);
}

/// Addition of polynomials is commutative.
pub proof fn lemma_add_comm(a: Seq<int>, b: Seq<int>)
    ensures
        add_spec(a, b) == add_spec(b, a),
{
    assert(add_raw(a, b) =~= add_raw(b, a));
}

/// Addition of polynomials is associative.
pub proof fn lemma_add_assoc(a: Seq<int>, b: Seq<int>, c: Seq<int>)
    ensures
        add_spec(add_spec(a, b), c) == add_spec(a, add_spec(b, c)),
{
    let l = add_spec(add_spec(a, b), c);
    let r = add_spec(a, add_spec(b, c));
    lemma_trim_normal(add_raw(add_spec(a, b), c));
    lemma_trim_normal(add_raw(a, add_spec(b, c)));
    assert forall|i: int| coeff_of(l, i) == coeff_of(r, i) by {
        lemma_trim_coeffs(add_raw(add_spec(a, b), c), i);
        lemma_add_raw_coeff(add_spec(a, b), c, i);
        lemma_trim_coeffs(add_raw(a, b), i);
        lemma_add_raw_coeff(a, b, i);
        lemma_trim_coeffs(add_raw(a, add_spec(b, c)), i);
        lemma_add_raw_coeff(a, add_spec(b, c), i);
        lemma_trim_coeffs(add_raw(b, c), i);
        lemma_add_raw_coeff(b, c, i);
    }
    lemma_normal_unique(l, r);
}

} // verus!
