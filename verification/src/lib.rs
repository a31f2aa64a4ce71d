//! Exact univariate polynomial algebra over machine integers.
//!
//! A [`Polynomial`] holds its coefficients in ascending order of degree, in
//! canonical form: no trailing zero is stored, and the zero polynomial is the
//! empty sequence. Every operation is specified against the mathematical
//! model in [`specs`] — a `Seq<int>` of coefficients — and proved to return
//! its result in canonical form.
#![verifier::loop_isolation(false)]

use vstd::prelude::*;

pub mod add;
pub mod display;
pub mod math;
pub mod modular;
pub mod mul;
pub mod rem;
pub mod specs;
pub mod sub;

use crate::specs::{
    coeff_of, is_normal, lemma_to_ints_drop_last, lemma_trim_normal, to_ints, trim,
};

verus! {

/// A univariate polynomial with integer coefficients, stored in ascending
/// order of degree with no trailing zero.
#[derive(Debug)]
pub struct Polynomial {
    coeffs: Vec<isize>,
}

impl Clone for Polynomial {
    /// A clone holds the same coefficients.
    fn clone(&self) -> (r: Polynomial)
        ensures
            r@ == self@,
    {
        let mut v: Vec<isize> = Vec::new();
        let mut i: usize = 0;
        proof {
            assert(v@ =~= self.coeffs@.subrange(0, 0));
        }
        while i < self.coeffs.len()
            invariant
                i <= self.coeffs@.len(),
                v@ == self.coeffs@.subrange(0, i as int),
            decreases self.coeffs@.len() - i,
        {
            v.push(self.coeffs[i]);
            proof {
                assert(v@ =~= self.coeffs@.subrange(0, i + 1));
            }
            i = i + 1;
        }
        proof {
            assert(v@ =~= self.coeffs@);
        }
        Polynomial { coeffs: v }
    }
}

impl View for Polynomial {
    type V = Seq<int>;

    closed spec fn view(&self) -> Seq<int> {
        to_ints(self.coeffs@)
    }
}

impl Polynomial {
    /// The representation invariant: the stored sequence is canonical, and
    /// short enough that the degree fits in a signed machine word.
    pub open spec fn wf(&self) -> bool {
        is_normal(self@) && self@.len() <= isize::MAX
    }

    /// Restore the canonical form by popping trailing zero coefficients.
    /// Every operation that can produce a trailing zero routes through here.
    fn reduce(&mut self)
        ensures
            final(self)@ == trim(old(self)@),
            final(self)@.len() <= old(self)@.len(),
    {
        while self.coeffs.len() > 0 && self.coeffs[self.coeffs.len() - 1] == 0
            invariant
                trim(self@) == trim(old(self)@),
                self@.len() <= old(self)@.len(),
            decreases self.coeffs@.len(),
        {
            proof {
                lemma_to_ints_drop_last(self.coeffs@);
            }
            self.coeffs.pop();
        }
    }

    /// Build a polynomial from coefficients in ascending order of degree;
    /// trailing zeros are stripped, so any sequence of zeros yields zero.
    pub fn new(coeffs: Vec<isize>) -> (r: Polynomial)
        requires
            coeffs@.len() <= isize::MAX,
        ensures
            r.wf(),
            r@ == trim(to_ints(coeffs@)),
    {
        let mut r = Polynomial { coeffs };
        r.reduce();
        proof {
            lemma_trim_normal(to_ints(coeffs@));
        }
        r
    }

    /// The zero polynomial: the empty coefficient sequence.
    pub fn zero() -> (r: Polynomial)
        ensures
            r.wf(),
            r@ == Seq::<int>::empty(),
    {
        let r = Polynomial { coeffs: Vec::new() };
        proof {
            assert(r@ =~= Seq::<int>::empty());
        }
        r
    }

    /// The constant polynomial `c`; the constant 0 is the zero polynomial.
    pub fn constant(c: isize) -> (r: Polynomial)
        ensures
            r.wf(),
            r@ == (if c == 0 {
                Seq::<int>::empty()
            } else {
                seq![c as int]
            }),
    {
        if c == 0 {
            Polynomial::zero()
        } else {
            let mut v: Vec<isize> = Vec::new();
            v.push(c);
            let r = Polynomial { coeffs: v };
            proof {
                assert(r@ =~= seq![c as int]);
            }
            r
        }
    }

    /// The highest power with a nonzero coefficient; the zero polynomial has
    /// degree -1 by convention.
    pub fn degree(&self) -> (d: isize)
        requires
            self.wf(),
        ensures
            d as int == self@.len() - 1,
    {
        (self.coeffs.len() as isize) - 1
    }

    /// Whether this is the zero polynomial.
    pub fn is_zero(&self) -> (r: bool)
        requires
            self.wf(),
        ensures
            r == (self@.len() == 0),
    {
        self.degree() == -1
    }

    /// The stored coefficients, ascending by degree. The last entry, if any,
    /// is nonzero.
    pub fn coeffs(&self) -> (r: &Vec<isize>)
        ensures
            to_ints(r@) == self@,
    {
        &self.coeffs
    }

    /// The coefficients in ascending order of degree, for traversal; the
    /// caller may iterate over the returned vector.
    pub fn iter(&self) -> (r: &Vec<isize>)
        ensures
            to_ints(r@) == self@,
    {
        &self.coeffs
    }

    /// Write access to the stored coefficients, ascending by degree.
    /// Mutation through the returned reference bypasses normalization: the
    /// caller answers for leaving no trailing zero behind, since every
    /// operation expects the canonical form.
    pub fn coeffs_mut(&mut self) -> (r: &mut Vec<isize>)
        ensures
            to_ints((*r)@) == old(self)@,
            final(self)@ == to_ints((*final(r))@),
    {
        &mut self.coeffs
    }

    /// The coefficients in ascending order of degree, for mutating
    /// traversal; the caller may iterate over the returned vector. As with
    /// [`Self::coeffs_mut`], the caller answers for keeping the sequence
    /// canonical.
    pub fn iter_mut(&mut self) -> (r: &mut Vec<isize>)
        ensures
            to_ints((*r)@) == old(self)@,
            final(self)@ == to_ints((*final(r))@),
    {
        &mut self.coeffs
    }

    /// The coefficient of the degree-`i` term.
    pub fn coeff(&self, i: usize) -> (c: isize)
        requires
            i < self@.len(),
        ensures
            c as int == self@[i as int],
    {
        self.coeffs[i]
    }

    /// Multiply by the indeterminate: every term moves up one degree. The
    /// zero polynomial stays zero (no lone zero coefficient is kept).
    pub fn times_x(&self) -> (r: Polynomial)
        requires
            self.wf(),
            self@.len() < isize::MAX,
        ensures
            r.wf(),
            r@ == (if self@.len() == 0 {
                Seq::<int>::empty()
            } else {
                seq![0int] + self@
            }),
    {
        if self.coeffs.len() == 0 {
            Polynomial::zero()
        } else {
            let mut v: Vec<isize> = Vec::new();
            v.push(0);
            let mut i: usize = 0;
            while i < self.coeffs.len()
                invariant
                    i <= self.coeffs@.len(),
                    v@.len() == i + 1,
                    v@[0] == 0isize,
                    forall|j: int| 0 <= j < i ==> v@[j + 1] == self.coeffs@[j],
                decreases self.coeffs@.len() - i,
            {
                v.push(self.coeffs[i]);
                i = i + 1;
            }
            let r = Polynomial { coeffs: v };
            proof {
                assert(r@ =~= seq![0int] + self@);
            }
            r
        }
    }
}

impl PartialEq for Polynomial {
    /// Structural equality: equal exactly when the canonical coefficient
    /// sequences agree elementwise.
    fn eq(&self, other: &Polynomial) -> (r: bool) {
        if self.coeffs.len() != other.coeffs.len() {
            proof {
                assert(self@.len() != other.view().len());
            }
            false
        } else {
            let n = self.coeffs.len();
            let mut i: usize = 0;
            let mut same: bool = true;
            while i < n
                invariant
                    i <= n,
                    n == self.coeffs@.len(),
                    n == other.coeffs@.len(),
                    same == (forall|j: int| 0 <= j < i ==> self.coeffs@[j] == other.coeffs@[j]),
                decreases n - i,
            {
                if self.coeffs[i] != other.coeffs[i] {
                    same = false;
                }
                i = i + 1;
            }
            proof {
                if same {
                    assert(self.coeffs@ =~= other.coeffs@);
                } else {
                    let j = choose|j: int|
                        0 <= j < n && self.coeffs@[j] != other.coeffs@[j];
                    assert(self@[j] != other.view()[j]);
                }
            }
            same
        }
    }
}

impl vstd::std_specs::cmp::PartialEqSpecImpl for Polynomial {
    open spec fn obeys_eq_spec() -> bool {
        true
    }

    open spec fn eq_spec(&self, other: &Polynomial) -> bool {
        self@ == other@
    }
}

} // verus!
