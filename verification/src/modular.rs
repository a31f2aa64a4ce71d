//! Scalar remainder arithmetic: the truncating and the Euclidean remainder,
//! proved against the mathematical Euclidean `%`, and the divisibility facts
//! that the number-theoretic operations build on.
use vstd::prelude::*;

use vstd::arithmetic::div_mod::{
    lemma_fundamental_div_mod, lemma_fundamental_div_mod_converse_mod, lemma_mod_bound,
    lemma_mod_multiples_basic,
};

verus! {

/// The absolute value.
pub open spec fn abs_val(n: int) -> int {
    if n < 0 {
        -n
    } else {
        n
    }
}

/// The Euclidean remainder of `a` modulo `n`: the unique representative of
/// `a` in `[0, |n|)`. Meaningful only for `n != 0`.
pub open spec fn emod(a: int, n: int) -> int {
    a % abs_val(n)
}

/// The truncating remainder of `a` modulo `n`, as machine division computes
/// it: same magnitude classes as `emod`, but with the sign of `a`.
pub open spec fn tmod(a: int, n: int) -> int {
    if emod(a, n) == 0 {
        0
    } else if a >= 0 {
        emod(a, n)
    } else {
        emod(a, n) - abs_val(n)
    }
}

/// `d` divides `n`.
pub open spec fn divides(d: int, n: int) -> bool {
    exists|k: int| n == #[trigger] (d * k)
}

/// `p` is prime: at least 2, with no divisor strictly between 1 and `p`.
pub open spec fn is_prime_spec(p: int) -> bool {
    p >= 2 && forall|d: int| 2 <= d < p ==> !divides(d, p)
}

/// Negating the dividend reflects the Euclidean remainder: `(-x) % m` is
/// `m - x % m`, except that a zero remainder stays zero.
proof fn lemma_mod_flip(x: int, m: int)
    requires
        0 < m,
    ensures
        (-x) % m == (if x % m == 0 {
            0int
        } else {
            m - (x % m)
        }),
{
    let q = x / m;
    let r = x % m;
    lemma_fundamental_div_mod(x, m);
    lemma_mod_bound(x, m);
    if r == 0 {
        assert(-x == m * (-q) + 0) by (nonlinear_arith)
            requires
                x == m * q + r,
                r == 0,
        ;
        lemma_fundamental_div_mod_converse_mod(-x, m, -q, 0);
    } else {
        assert(-x == m * (-q - 1) + (m - r)) by (nonlinear_arith)
            requires
                x == m * q + r,
        ;
        lemma_fundamental_div_mod_converse_mod(-x, m, -q - 1, m - r);
    }
}

/// For a positive divisor, divisibility is a zero remainder.
pub proof fn lemma_divides_mod(d: int, n: int)
    requires
        0 < d,
    ensures
        divides(d, n) <==> n % d == 0,
{
    if divides(d, n) {
        let k = choose|k: int| n == #[trigger] (d * k);
        lemma_mod_multiples_basic(k, d);
        assert(d * k == k * d) by (nonlinear_arith);
    }
    if n % d == 0 {
        lemma_fundamental_div_mod(n, d);
        assert(n == d * (n / d));
    }
}

/// Divisibility is transitive.
pub proof fn lemma_divides_transitive(a: int, b: int, c: int)
    requires
        divides(a, b),
        divides(b, c),
    ensures
        divides(a, c),
{
    let k1 = choose|k: int| b == #[trigger] (a * k);
    let k2 = choose|k: int| c == #[trigger] (b * k);
    assert(c == a * (k1 * k2)) by (nonlinear_arith)
        requires
            b == a * k1,
            c == b * k2,
    ;
}

/// A positive divisor of a positive number is no larger than it.
pub proof fn lemma_divides_le(d: int, n: int)
    requires
        divides(d, n),
        1 <= d,
        1 <= n,
    ensures
        d <= n,
{
    let k = choose|k: int| n == #[trigger] (d * k);
    assert(d <= n) by (nonlinear_arith)
        requires
            n == d * k,
            1 <= d,
            1 <= n,
    ;
}

/// A common divisor of `x` and `y` divides any integer combination
/// `x - q * y`.
pub proof fn lemma_divides_linear(d: int, x: int, y: int, q: int)
    requires
        divides(d, x),
        divides(d, y),
    ensures
        divides(d, x - q * y),
{
    let kx = choose|k: int| x == #[trigger] (d * k);
    let ky = choose|k: int| y == #[trigger] (d * k);
    assert(x - q * y == d * (kx - q * ky)) by (nonlinear_arith)
        requires
            x == d * kx,
            y == d * ky,
    ;
}

/// The truncating remainder, as `%` on machine integers computes it: the
/// result has the sign of the dividend.
pub fn trunc_rem(a: isize, n: isize) -> (r: isize)
    requires
        n != 0,
    ensures
        r as int == tmod(a as int, n as int),
        (r as int) < abs_val(n as int),
        -abs_val(n as int) < (r as int),
{
    let ghost m = abs_val(n as int);
    proof {
        lemma_mod_bound(a as int, m);
    }
    if n == -1 {
        0
    } else {
        let t = a.checked_rem(n);
        proof {
            let x = a as int;
            let d = n as int;
            lemma_mod_flip(x, m);
            if x == 0 {
                assert(0int % m == 0) by {
                    lemma_mod_bound(0, m);
                    lemma_fundamental_div_mod(0, m);
                    lemma_fundamental_div_mod_converse_mod(0, m, 0, 0);
                }
                assert(t == Some(0isize));
            } else if x > 0 && d > 0 {
                assert(t == Some((x % d) as isize));
            } else if x < 0 && d < 0 {
                assert(x * -1 == -x);
                assert(d * -1 == m);
                assert(t == Some((((-x) % m) * -1) as isize));
            } else if x < 0 {
                assert(x * -1 == -x);
                assert(t == Some((((-x) % m) * -1) as isize));
            } else {
                assert(d * -1 == m);
                assert(t == Some((x % m) as isize));
            }
        }
        t.unwrap()
    }
}

/// The Euclidean remainder on machine integers: always in `[0, |n|)`, for
/// any sign of `a` and `n`.
pub fn eu_rem(a: isize, n: isize) -> (r: isize)
    requires
        n != 0,
    ensures
        r as int == emod(a as int, n as int),
        0 <= (r as int) && (r as int) < abs_val(n as int),
{
    let ghost m = abs_val(n as int);
    proof {
        lemma_mod_bound(a as int, m);
    }
    let t = trunc_rem(a, n);
    if t < 0 {
        if n > 0 {
            t + n
        } else {
            t - n
        }
    } else {
        t
    }
}

/// The Euclidean remainder on wide intermediates, for a positive modulus.
pub fn eu_rem_i128(a: i128, m: i128) -> (r: i128)
    requires
        0 < m,
    ensures
        r == emod(a as int, m as int),
        0 <= r < m,
{
    let t = a.checked_rem(m);
    proof {
        let x = a as int;
        let mm = m as int;
        lemma_mod_bound(x, mm);
        lemma_mod_flip(x, mm);
        if x == 0 {
            assert(0int % mm == 0) by {
                lemma_fundamental_div_mod_converse_mod(0, mm, 0, 0);
            }
            assert(t == Some(0i128));
        } else if x > 0 {
            assert(t == Some((x % mm) as i128));
        } else {
            assert(x * -1 == -x);
            assert(t == Some((((-x) % mm) * -1) as i128));
        }
    }
    let u = t.unwrap();
    if u < 0 {
        u + m
    } else {
        u
    }
}

} // verus!
