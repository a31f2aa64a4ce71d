//! The mathematical model of polynomials: coefficient sequences over `int`,
//! the canonical (no-trailing-zero) form, and the spec-level arithmetic that
//! the executable operations are proved against.
use vstd::prelude::*;

verus! {

/// The coefficient of the degree-`i` term of `s`, with every index outside
/// the sequence holding 0. This makes two sequences that differ only in
/// trailing zeros describe the same polynomial.
pub open spec fn coeff_of(s: Seq<int>, i: int) -> int {
    if 0 <= i < s.len() {
        s[i]
    } else {
        0
    }
}

/// A coefficient sequence is canonical when it has no trailing zero; the
/// zero polynomial is the empty sequence.
pub open spec fn is_normal(s: Seq<int>) -> bool {
    s.len() > 0 ==> s[s.len() - 1] != 0
}

/// Strip trailing zeros, yielding the canonical form of `s`.
pub open spec fn trim(s: Seq<int>) -> Seq<int>
    decreases s.len(),
{
    if s.len() > 0 && s[s.len() - 1] == 0 {
        trim(s.drop_last())
    } else {
        s
    }
}

/// The mathematical values of a sequence of machine coefficients.
pub open spec fn to_ints(s: Seq<isize>) -> Seq<int> {
    s.map_values(|c: isize| c as int)
}

/// `v` fits in a machine-word signed coefficient.
pub open spec fn fits(v: int) -> bool {
    isize::MIN <= v <= isize::MAX
}

/// Length of the pointwise combination of `a` and `b`: the longer of the two.
pub open spec fn pad_len(a: Seq<int>, b: Seq<int>) -> nat {
    if a.len() >= b.len() {
        a.len()
    } else {
        b.len()
    }
}

/// The coefficient sequence of the constant polynomial `c`.
pub open spec fn cseq(c: int) -> Seq<int> {
    if c == 0 {
        Seq::empty()
    } else {
        seq![c]
    }
}

/// Pointwise sum, padded with zeros up to the longer operand.
pub open spec fn add_raw(a: Seq<int>, b: Seq<int>) -> Seq<int> {
    Seq::new(pad_len(a, b), |i: int| coeff_of(a, i) + coeff_of(b, i))
}

/// Polynomial addition: the pointwise sum in canonical form.
pub open spec fn add_spec(a: Seq<int>, b: Seq<int>) -> Seq<int> {
    trim(add_raw(a, b))
}

/// Pointwise difference, padded with zeros up to the longer operand.
pub open spec fn sub_raw(a: Seq<int>, b: Seq<int>) -> Seq<int> {
    Seq::new(pad_len(a, b), |i: int| coeff_of(a, i) - coeff_of(b, i))
}

/// Polynomial subtraction: the pointwise difference in canonical form.
pub open spec fn sub_spec(a: Seq<int>, b: Seq<int>) -> Seq<int> {
    trim(sub_raw(a, b))
}

/// Negation maps every coefficient to its additive inverse; it preserves
/// canonical form, since no nonzero coefficient becomes zero.
pub open spec fn neg_spec(a: Seq<int>) -> Seq<int> {
    Seq::new(a.len(), |i: int| -a[i])
}

/// Multiplication by the scalar `c`. Over the integers no nonzero
/// coefficient can vanish, so the result of scaling a canonical sequence by
/// a nonzero scalar is canonical without trimming.
pub open spec fn scale_spec(a: Seq<int>, c: int) -> Seq<int> {
    if c == 0 {
        Seq::empty()
    } else {
        Seq::new(a.len(), |i: int| a[i] * c)
    }
}

// ------------------------------------------------------------------
// Facts about the canonical form.
// ------------------------------------------------------------------
/// The canonical form of a sequence is canonical.
pub proof fn lemma_trim_normal(s: Seq<int>)
    ensures
        is_normal(trim(s)),
    decreases s.len(),
{
    if s.len() > 0 && s[s.len() - 1] == 0 {
        lemma_trim_normal(s.drop_last());
    }
}

/// Trimming only removes trailing zeros: the canonical form is a prefix.
pub proof fn lemma_trim_prefix(s: Seq<int>)
    ensures
        trim(s).len() <= s.len(),
        trim(s) == s.subrange(0, trim(s).len() as int),
    decreases s.len(),
{
    if s.len() > 0 && s[s.len() - 1] == 0 {
        lemma_trim_prefix(s.drop_last());
        assert(s.drop_last() == s.subrange(0, s.len() - 1));
        assert(s.drop_last().subrange(0, trim(s).len() as int) =~= s.subrange(
            0,
            trim(s).len() as int,
        ));
    } else {
        assert(s =~= s.subrange(0, s.len() as int));
    }
}

/// Trimming does not change any coefficient of the polynomial the sequence
/// describes.
pub proof fn lemma_trim_coeffs(s: Seq<int>, i: int)
    ensures
        coeff_of(trim(s), i) == coeff_of(s, i),
    decreases s.len(),
{
    if s.len() > 0 && s[s.len() - 1] == 0 {
        lemma_trim_coeffs(s.drop_last(), i);
    }
}

/// An already canonical sequence is its own canonical form.
pub proof fn lemma_trim_of_normal(s: Seq<int>)
    requires
        is_normal(s),
    ensures
        trim(s) == s,
{
}

/// Two canonical sequences with the same coefficients everywhere are equal.
pub proof fn lemma_normal_unique(a: Seq<int>, b: Seq<int>)
    requires
        is_normal(a),
        is_normal(b),
        forall|i: int| coeff_of(a, i) == coeff_of(b, i),
    ensures
        a == b,
{
    if a.len() < b.len() {
        assert(coeff_of(a, b.len() - 1) == 0);
        assert(coeff_of(b, b.len() - 1) == b[b.len() - 1]);
    } else if b.len() < a.len() {
        assert(coeff_of(b, a.len() - 1) == 0);
        assert(coeff_of(a, a.len() - 1) == a[a.len() - 1]);
    } else {
        assert forall|i: int| 0 <= i < a.len() implies a[i] == b[i] by {
            assert(coeff_of(a, i) == coeff_of(b, i));
        }
        assert(a =~= b);
    }
}

/// A sequence of zeros describes the zero polynomial: its canonical form is
/// empty.
pub proof fn lemma_trim_all_zero(s: Seq<int>)
    requires
        forall|i: int| 0 <= i < s.len() ==> s[i] == 0,
    ensures
        trim(s) == Seq::<int>::empty(),
    decreases s.len(),
{
    if s.len() > 0 {
        lemma_trim_all_zero(s.drop_last());
    } else {
        assert(s =~= Seq::<int>::empty());
    }
}

// ------------------------------------------------------------------
// Moving between machine coefficients and their mathematical values.
// ------------------------------------------------------------------
/// Dropping the last machine coefficient drops the last mathematical one.
pub proof fn lemma_to_ints_drop_last(s: Seq<isize>)
    requires
        s.len() > 0,
    ensures
        to_ints(s.drop_last()) == to_ints(s).drop_last(),
{
    assert(to_ints(s.drop_last()) =~= to_ints(s).drop_last());
}

} // verus!
