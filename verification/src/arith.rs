//! Divisibility and primality at the specification level: what it means
//! for a number to be prime, the least nontrivial factor of a number, and
//! the facts relating them that the engines' proofs rely on.

use vstd::arithmetic::div_mod::{
    lemma_fundamental_div_mod, lemma_fundamental_div_mod_converse_mod, lemma_mod_multiples_basic,
};
use vstd::prelude::*;

verus! {

/// A number is prime when it is at least 2 and nothing strictly between
/// 1 and it divides it.
pub open spec fn is_prime_spec(n: int) -> bool {
    2 <= n && forall|d: int| 2 <= d < n ==> #[trigger] (n % d) != 0
}

/// The least divisor of `n` that is at least `c`, or `n` itself when no
/// divisor lies in `[c, n)`.
pub open spec fn least_factor_from(n: int, c: int) -> int
    recommends
        2 <= c <= n,
    decreases n - c,
{
    if c < n {
        if n % c == 0 {
            c
        } else {
            least_factor_from(n, c + 1)
        }
    } else {
        n
    }
}

/// The least divisor of `n` that is at least 2; `n` itself exactly when
/// `n` is prime.
pub open spec fn least_factor(n: int) -> int {
    least_factor_from(n, 2)
}

pub proof fn lemma_least_factor_from(n: int, c: int)
    requires
        2 <= c <= n,
    ensures
        c <= least_factor_from(n, c) <= n,
        n % least_factor_from(n, c) == 0,
        forall|d: int| c <= d < least_factor_from(n, c) ==> #[trigger] (n % d) != 0,
    decreases n - c,
{
    if c < n {
        if n % c == 0 {
        } else {
            lemma_least_factor_from(n, c + 1);
        }
    } else {
        assert(n % n == 0) by {
            lemma_mod_multiples_basic(1, n);
        }
    }
}

pub proof fn lemma_least_factor(n: int)
    requires
        2 <= n,
    ensures
        2 <= least_factor(n) <= n,
        n % least_factor(n) == 0,
        forall|d: int| 2 <= d < least_factor(n) ==> #[trigger] (n % d) != 0,
{
    lemma_least_factor_from(n, 2);
}

/// Divisibility is transitive: if `a` divides `b` and `b` divides `c`,
/// then `a` divides `c`.
pub proof fn lemma_divides_transitive(a: int, b: int, c: int)
    requires
        1 <= a,
        1 <= b,
        0 <= c,
        b % a == 0,
        c % b == 0,
    ensures
        c % a == 0,
{
    lemma_fundamental_div_mod(c, b);
    lemma_fundamental_div_mod(b, a);
    let cb = c / b;
    let ba = b / a;
    assert(c == a * (ba * cb)) by (nonlinear_arith)
        requires
            c == b * cb,
            b == a * ba,
    ;
    lemma_fundamental_div_mod_converse_mod(c, a, ba * cb, 0);
}

/// The least factor of any number that is at least 2 is prime.
pub proof fn lemma_least_factor_is_prime(n: int)
    requires
        2 <= n,
    ensures
        is_prime_spec(least_factor(n)),
{
    lemma_least_factor(n);
    let f = least_factor(n);
    assert forall|d: int| 2 <= d < f implies #[trigger] (f % d) != 0 by {
        if f % d == 0 {
            lemma_divides_transitive(d, f, n);
        }
    }
}

/// A composite number has a prime factor whose square does not exceed it.
pub proof fn lemma_composite_has_small_factor(n: int)
    requires
        2 <= n,
        !is_prime_spec(n),
    ensures
        is_prime_spec(least_factor(n)),
        n % least_factor(n) == 0,
        least_factor(n) * least_factor(n) <= n,
        least_factor(n) < n,
    decreases 0int,
{
    lemma_least_factor(n);
    lemma_least_factor_is_prime(n);
    let f = least_factor(n);
    // Some divisor strictly between 1 and n exists, so the least one is below n.
    assert(f < n) by {
        if f == n {
            let d = choose|d: int| 2 <= d < n && #[trigger] (n % d) == 0;
            assert(n % d != 0);
        }
    }
    // The cofactor n / f is itself a divisor, and at least f by minimality.
    lemma_fundamental_div_mod(n, f);
    let k = n / f;
    assert(n == f * k);
    assert(1 <= k) by (nonlinear_arith)
        requires
            n == f * k,
            2 <= f,
            2 <= n,
    ;
    assert(k < n) by (nonlinear_arith)
        requires
            n == f * k,
            2 <= f,
            1 <= k,
    ;
    if k == 1 {
        assert(n == f * 1 == f) by (nonlinear_arith)
            requires
                n == f * k,
                k == 1,
        ;
    } else {
        assert(n % k == 0) by {
            assert(n == k * f) by (nonlinear_arith)
                requires
                    n == f * k,
            ;
            lemma_fundamental_div_mod_converse_mod(n, k, f, 0);
        }
        assert(f <= k);
        assert(f * f <= f * k) by (nonlinear_arith)
            requires
                f <= k,
                0 <= f,
        ;
    }
}

/// The square of a `u64` value fits in a `u128`.
pub proof fn lemma_square_fits_u128(n: u64)
    ensures
        (n as int) * (n as int) <= u128::MAX as int,
{
    assert((n as int) * (n as int) <= (u64::MAX as int) * (u64::MAX as int)) by (nonlinear_arith)
        requires
            0 <= n as int <= u64::MAX as int,
    ;
    assert((u64::MAX as int) * (u64::MAX as int) <= u128::MAX as int) by (nonlinear_arith);
}

/// A prime other than 2 is odd.
pub proof fn lemma_prime_odd(p: int)
    requires
        is_prime_spec(p),
        p != 2,
    ensures
        p % 2 == 1,
{
    if p % 2 == 0 {
        assert(p % 2 != 0);
    }
    assert(p % 2 == 1) by {
        lemma_fundamental_div_mod(p, 2);
    }
}

/// The small primes that seed the engines, and the compositeness of their
/// even and odd neighbours.
pub proof fn lemma_small_primes()
    ensures
        is_prime_spec(2),
        is_prime_spec(3),
        is_prime_spec(5),
        is_prime_spec(7),
        !is_prime_spec(0),
        !is_prime_spec(1),
        !is_prime_spec(4),
        !is_prime_spec(6),
{
    assert forall|d: int| 2 <= d < 2 implies #[trigger] (2int % d) != 0 by {}
    assert(3int % 2 == 1);
    assert forall|d: int| 2 <= d < 3 implies #[trigger] (3int % d) != 0 by {
        assert(3int % 2 == 1);
    }
    assert forall|d: int| 2 <= d < 5 implies #[trigger] (5int % d) != 0 by {
        assert(5int % 2 == 1);
        assert(5int % 3 == 2);
        assert(5int % 4 == 1);
    }
    assert forall|d: int| 2 <= d < 7 implies #[trigger] (7int % d) != 0 by {
        assert(7int % 2 == 1);
        assert(7int % 3 == 1);
        assert(7int % 4 == 3);
        assert(7int % 5 == 2);
        assert(7int % 6 == 1);
    }
    assert(4int % 2 == 0);
    assert(6int % 2 == 0);
}

} // verus!
