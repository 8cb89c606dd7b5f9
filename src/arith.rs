//! Primality as a mathematical notion, and the divisibility facts the sieve
//! relies on.

use vstd::prelude::*;
use vstd::arithmetic::div_mod::{
    lemma_fundamental_div_mod,
    lemma_mod_multiples_basic,
    lemma_mod_multiples_vanish,
    lemma_small_mod,
};

verus! {

/// `d` divides `n` (for a positive `d`).
pub open spec fn divides(d: int, n: int) -> bool {
    n % d == 0
}

/// `n` is a prime number: at least 2 and with no divisor strictly between 1 and `n`.
pub open spec fn is_prime_spec(n: int) -> bool {
    n >= 2 && forall|d: int| 2 <= d < n ==> !#[trigger] divides(d, n)
}

/// Divisibility is transitive.
pub proof fn lemma_divides_trans(a: int, b: int, c: int)
    requires
        a > 0,
        b > 0,
        divides(a, b),
        divides(b, c),
    ensures
        divides(a, c),
{
    lemma_fundamental_div_mod(b, a);
    lemma_fundamental_div_mod(c, b);
    let k = (b / a) * (c / b);
    assert(c == k * a) by (nonlinear_arith)
        requires
            b == a * (b / a),
            c == b * (c / b),
            k == (b / a) * (c / b),
    ;
    lemma_mod_multiples_basic(k, a);
}

/// Between two consecutive multiples of `m` no value is a multiple of `m`.
pub proof fn lemma_no_multiple_between(x: int, d: int, m: int)
    requires
        m > 0,
        divides(m, x),
        0 < d < m,
    ensures
        !divides(m, x + d),
{
    lemma_fundamental_div_mod(x, m);
    lemma_mod_multiples_vanish(x / m, d, m);
    lemma_small_mod(d as nat, m as nat);
}

/// The least divisor of `v` that is at least `k`, given that none below `k` divides `v`.
proof fn least_divisor_from(v: int, k: int) -> (q: int)
    requires
        2 <= k <= v,
        forall|d: int| 2 <= d < k ==> !#[trigger] divides(d, v),
    ensures
        k <= q <= v,
        divides(q, v),
        forall|d: int| 2 <= d < q ==> !#[trigger] divides(d, v),
    decreases v - k,
{
    if divides(k, v) {
        k
    } else {
        if k == v {
            lemma_mod_multiples_basic(1, v);
        }
        least_divisor_from(v, k + 1)
    }
}

/// A value of at least 2 that is not prime has a prime divisor of at most half its size.
pub proof fn lemma_composite_has_small_prime_divisor(v: int) -> (q: int)
    requires
        v >= 2,
        !is_prime_spec(v),
    ensures
        is_prime_spec(q),
        divides(q, v),
        2 * q <= v,
{
    let q = least_divisor_from(v, 2);
    assert forall|d: int| 2 <= d < q implies !#[trigger] divides(d, q) by {
        if divides(d, q) {
            lemma_divides_trans(d, q, v);
        }
    }
    let w = choose|d: int| 2 <= d < v && #[trigger] divides(d, v);
    assert(q <= w);
    lemma_fundamental_div_mod(v, q);
    let e = v / q;
    if e < 2 {
        assert(v == q * e);
        assert(e <= 1 ==> q * e <= q) by (nonlinear_arith)
            requires
                q >= 2,
        ;
        assert(false);
    }
    assert(2 * q <= q * e) by (nonlinear_arith)
        requires
            q >= 2,
            e >= 2,
    ;
    q
}

/// Every prime is not divisible by any smaller value of at least 2.
pub proof fn lemma_prime_not_divisible(p: int, q: int)
    requires
        is_prime_spec(p),
        2 <= q < p,
    ensures
        !divides(q, p),
{
}

} // verus!
