//! Human-readable rendering. Terms are written from the highest degree
//! down, zero coefficients are skipped, the first term carries its own sign
//! and later terms are joined with " + " or " - " around the coefficient's
//! magnitude; the zero polynomial renders as "0".
use vstd::prelude::*;

use crate::modular::abs_val;
use crate::specs::coeff_of;
use crate::Polynomial;

verus! {

/// The character for one decimal digit.
pub open spec fn digit_char(d: int) -> char {
    if d == 0 {
        '0'
    } else if d == 1 {
        '1'
    } else if d == 2 {
        '2'
    } else if d == 3 {
        '3'
    } else if d == 4 {
        '4'
    } else if d == 5 {
        '5'
    } else if d == 6 {
        '6'
    } else if d == 7 {
        '7'
    } else if d == 8 {
        '8'
    } else {
        '9'
    }
}

/// The decimal digits of a nonnegative number, most significant first.
pub open spec fn dec_digits(n: int) -> Seq<char>
    decreases n,
{
    if n <= 9 {
        seq![digit_char(n)]
    } else {
        dec_digits(n / 10) + seq![digit_char(n % 10)]
    }
}

/// The characters of one term: the sign or joiner, then the magnitude and
/// power. A magnitude of 1 is left implicit before `x`.
pub open spec fn term_chars(c: int, n: int, started: bool) -> Seq<char> {
    let sign = if started {
        if c < 0 {
            seq![' ', '-', ' ']
        } else {
            seq![' ', '+', ' ']
        }
    } else {
        if c < 0 {
            seq!['-']
        } else {
            Seq::empty()
        }
    };
    sign + mag_chars(abs_val(c), n)
}

/// The magnitude-and-power part of a term of degree `n` with coefficient
/// magnitude `m`.
pub open spec fn mag_chars(m: int, n: int) -> Seq<char> {
    if n == 0 {
        dec_digits(m)
    } else {
        let xpart = if n == 1 {
            seq!['x']
        } else {
            seq!['x', '^'] + dec_digits(n)
        };
        if m == 1 {
            xpart
        } else {
            dec_digits(m) + xpart
        }
    }
}

/// The rendering of the terms of degree `n` and below, given whether a term
/// of higher degree was already written.
pub open spec fn render_from(s: Seq<int>, n: int, started: bool) -> Seq<char>
    decreases n + 1,
{
    if n < 0 {
        Seq::empty()
    } else {
        let c = coeff_of(s, n);
        if c == 0 {
            render_from(s, n - 1, started)
        } else {
            term_chars(c, n, started) + render_from(s, n - 1, true)
        }
    }
}

/// The full rendering of a coefficient sequence; the zero polynomial is
/// "0".
pub open spec fn display_spec(s: Seq<int>) -> Seq<char> {
    if s.len() == 0 {
        seq!['0']
    } else {
        render_from(s, s.len() - 1, false)
    }
}

/// Relies on `String`'s `FromIterator<char>` implementation: collecting
/// characters yields the string holding exactly those characters in order.
#[verifier::external_body]
fn string_from_chars(v: Vec<char>) -> (r: String)
    ensures
        r@ == v@,
{
    v.into_iter().collect()
}

/// The character for one decimal digit, as executable code.
fn digit_of(d: u64) -> (c: char)
    requires
        d < 10,
    ensures
        c == digit_char(d as int),
{
    if d == 0 {
        '0'
    } else if d == 1 {
        '1'
    } else if d == 2 {
        '2'
    } else if d == 3 {
        '3'
    } else if d == 4 {
        '4'
    } else if d == 5 {
        '5'
    } else if d == 6 {
        '6'
    } else if d == 7 {
        '7'
    } else if d == 8 {
        '8'
    } else {
        '9'
    }
}

/// Reversing after one more element puts that element in front.
proof fn lemma_rev_push(t: Seq<char>, x: char)
    ensures
        rev_chars(t.push(x)) == seq![x] + rev_chars(t),
{
    assert(rev_chars(t.push(x)) =~= seq![x] + rev_chars(t));
}

/// A sequence of characters backwards.
pub open spec fn rev_chars(t: Seq<char>) -> Seq<char> {
    Seq::new(t.len(), |k: int| t[t.len() - 1 - k])
}

/// Append the decimal digits of `m`, most significant first.
fn push_digits(out: &mut Vec<char>, m: u64)
    ensures
        final(out)@ == old(out)@ + dec_digits(m as int),
{
    let ghost dd = dec_digits(m as int);
    let mut tmp: Vec<char> = Vec::new();
    let mut cur: u64 = m;
    proof {
        assert(dd =~= dec_digits(cur as int) + rev_chars(tmp@));
    }
    while cur > 9
        invariant
            dd == dec_digits(cur as int) + rev_chars(tmp@),
        decreases cur,
    {
        proof {
            vstd::arithmetic::div_mod::lemma_mod_bound(cur as int, 10);
        }
        let d = cur % 10;
        let ghost t0 = tmp@;
        tmp.push(digit_of(d));
        proof {
            lemma_rev_push(t0, digit_char(d as int));
            assert(dec_digits(cur as int / 10) + (seq![digit_char(d as int)] + rev_chars(t0))
                =~= (dec_digits(cur as int / 10) + seq![digit_char(d as int)]) + rev_chars(
                t0,
            ));
            vstd::arithmetic::div_mod::lemma_div_decreases(cur as int, 10);
        }
        cur = cur / 10;
    }
    out.push(digit_of(cur));
    proof {
        assert(dd.len() == tmp@.len() + 1);
        assert(out@ =~= old(out)@ + dd.subrange(0, 1));
    }
    let mut j = tmp.len();
    while j > 0
        invariant
            j <= tmp@.len(),
            dd == dec_digits(m as int),
            dd.len() == tmp@.len() + 1,
            dd == seq![dd[0]] + rev_chars(tmp@),
            out@ == old(out)@ + dd.subrange(0, dd.len() - j),
        decreases j,
    {
        j = j - 1;
        let ghost k = dd.len() - j - 1;
        proof {
            assert(dd[k] == rev_chars(tmp@)[k - 1]);
            assert(dd[k] == tmp@[j as int]);
        }
        out.push(tmp[j]);
        proof {
            assert(out@ =~= old(out)@ + dd.subrange(0, k + 1));
        }
    }
    proof {
        assert(dd.subrange(0, dd.len() as int) =~= dd);
    }
}

/// Append one term: the sign or joiner, then the magnitude and power.
fn push_term(out: &mut Vec<char>, c: isize, n: usize, started: bool)
    requires
        c != 0,
    ensures
        final(out)@ == old(out)@ + term_chars(c as int, n as int, started),
{
    let ghost tc = term_chars(c as int, n as int, started);
    if started {
        out.push(' ');
        if c < 0 {
            out.push('-');
        } else {
            out.push('+');
        }
        out.push(' ');
    } else {
        if c < 0 {
            out.push('-');
        }
    }
    let m: u64 = if c < 0 {
        (-(c as i128)) as u64
    } else {
        c as u64
    };
    proof {
        assert(m as int == abs_val(c as int));
    }
    if n == 0 {
        push_digits(out, m);
    } else {
        if m != 1 {
            push_digits(out, m);
        }
        out.push('x');
        if n > 1 {
            out.push('^');
            push_digits(out, n as u64);
        }
    }
    proof {
        assert(out@ =~= old(out)@ + tc);
    }
}

impl Polynomial {
    /// Render the polynomial as text: terms from the highest degree down,
    /// zero terms skipped, the zero polynomial as "0".
    pub fn display(&self) -> (r: String)
        requires
            self.wf(),
        ensures
            r@ == display_spec(self@),
    {
        let ghost s = self@;
        let mut out: Vec<char> = Vec::new();
        if self.coeffs().len() == 0 {
            out.push('0');
            proof {
                assert(out@ =~= display_spec(s));
            }
            return string_from_chars(out);
        }
        let mut started: bool = false;
        let mut n = self.coeffs().len();
        proof {
            assert(display_spec(s) =~= out@ + render_from(s, n - 1, started));
        }
        while n > 0
            invariant
                n <= self@.len(),
                display_spec(s) == out@ + render_from(s, n as int - 1, started),
            decreases n,
        {
            n = n - 1;
            let c = self.coeff(n);
            if c != 0 {
                let ghost o0 = out@;
                push_term(&mut out, c, n, started);
                proof {
                    assert(o0 + render_from(s, n as int, started) =~= (o0 + term_chars(
                        c as int,
                        n as int,
                        started,
                    )) + render_from(s, n as int - 1, true));
                }
                started = true;
            }
        }
        proof {
            assert(display_spec(s) =~= out@);
        }
        string_from_chars(out)
    }
}

} // verus!
