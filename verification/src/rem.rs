//! Coefficientwise remainder by a scalar modulus, in both semantics: the
//! truncating remainder (which keeps the sign of a negative coefficient) and
//! the Euclidean remainder (always in `[0, |n|)`). The two differ on
//! negative coefficients and are deliberately separate operations.
use vstd::prelude::*;

use crate::modular::{abs_val, emod, eu_rem, tmod, trunc_rem};
use crate::specs::{lemma_trim_normal, to_ints, trim};
use crate::Polynomial;

verus! {

/// Every coefficient replaced by its truncating remainder modulo `n`.
pub open spec fn tmod_map(s: Seq<int>, n: int) -> Seq<int> {
    Seq::new(s.len(), |i: int| tmod(s[i], n))
}

/// Every coefficient replaced by its Euclidean remainder modulo `n`.
pub open spec fn emod_map(s: Seq<int>, n: int) -> Seq<int> {
    Seq::new(s.len(), |i: int| emod(s[i], n))
}

impl Polynomial {
    /// The polynomial taken modulo `n` with Euclidean semantics: every
    /// coefficient lands in `[0, |n|)`, and the result is canonical.
    pub fn rem_euclid(&self, n: isize) -> (r: Polynomial)
        requires
            self.wf(),
            n != 0,
        ensures
            r.wf(),
            r@ == trim(emod_map(self@, n as int)),
    {
        let mut v: Vec<isize> = Vec::new();
        let mut i: usize = 0;
        while i < self.coeffs.len()
            invariant
                i <= self.coeffs@.len(),
                v@.len() == i,
                forall|j: int| 0 <= j < i ==> v@[j] as int == emod(self@[j], n as int),
            decreases self.coeffs@.len() - i,
        {
            v.push(eu_rem(self.coeffs[i], n));
            i = i + 1;
        }
        proof {
            assert(to_ints(v@) =~= emod_map(self@, n as int));
        }
        Polynomial::new(v)
    }

    /// Remainder in place, with truncating semantics: every coefficient is
    /// replaced by its truncating remainder modulo `n` (negative
    /// coefficients keep a negative remainder), then the result is brought
    /// to canonical form.
    pub fn rem_assign(&mut self, n: isize)
        requires
            old(self).wf(),
            n != 0,
        ensures
            final(self).wf(),
            final(self)@ == trim(tmod_map(old(self)@, n as int)),
    {
        let ghost a = self@;
        let len = self.coeffs.len();
        let mut i: usize = 0;
        while i < len
            invariant
                i <= len,
                len == self.coeffs@.len(),
                forall|j: int| 0 <= j < i ==> self.coeffs@[j] as int == tmod(a[j], n as int),
                forall|j: int| i <= j < len ==> self.coeffs@[j] as int == a[j],
            decreases len - i,
        {
            let t = trunc_rem(self.coeffs[i], n);
            self.coeffs[i] = t;
            i = i + 1;
        }
        proof {
            assert(to_ints(self.coeffs@) =~= tmod_map(a, n as int));
        }
        self.reduce();
        proof {
            lemma_trim_normal(tmod_map(a, n as int));
        }
    }

    /// The polynomial taken modulo `n` with truncating semantics, consuming
    /// `self`.
    pub fn rem(self, n: isize) -> (r: Polynomial)
        requires
            self.wf(),
            n != 0,
        ensures
            r.wf(),
            r@ == trim(tmod_map(self@, n as int)),
    {
        let mut out = self;
        out.rem_assign(n);
        out
    }

    /// The polynomial taken modulo `n` with truncating semantics, leaving
    /// `self` in place and allocating a fresh result.
    pub fn rem_ref(&self, n: isize) -> (r: Polynomial)
        requires
            self.wf(),
            n != 0,
        ensures
            r.wf(),
            r@ == trim(tmod_map(self@, n as int)),
    {
        let mut v: Vec<isize> = Vec::new();
        let mut i: usize = 0;
        while i < self.coeffs.len()
            invariant
                i <= self.coeffs@.len(),
                v@.len() == i,
                forall|j: int| 0 <= j < i ==> v@[j] as int == tmod(self@[j], n as int),
            decreases self.coeffs@.len() - i,
        {
            v.push(trunc_rem(self.coeffs[i], n));
            i = i + 1;
        }
        proof {
            assert(to_ints(v@) =~= tmod_map(self@, n as int));
        }
        Polynomial::new(v)
    }
}

} // verus!
