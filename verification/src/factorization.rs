//! One-shot factorization: the canonical factorization of a number as
//! the chain of its least factors, and the cache-free helpers built on
//! it. `factors` returns that chain, `factors_uniq` the same with runs
//! of equal factors collapsed, and `totient` folds Euler's product rule
//! over the chain.

use crate::arith::{
    is_prime_spec, least_factor, lemma_composite_has_small_factor, lemma_divides_transitive,
    lemma_least_factor, lemma_least_factor_is_prime, lemma_square_fits_u128,
};
use vstd::arithmetic::div_mod::{
    lemma_div_by_self, lemma_div_decreases, lemma_fundamental_div_mod,
    lemma_fundamental_div_mod_converse_mod,
};
use vstd::prelude::*;

verus! {

/// The canonical prime factorization of `x`, with multiplicity, in
/// non-decreasing order: the empty sequence for 0 and 1, otherwise the
/// least factor of `x` followed by the factorization of the cofactor.
pub open spec fn factorization(x: u64) -> Seq<u64>
    decreases x,
    via factorization_decreases
{
    if x <= 1 {
        Seq::empty()
    } else {
        seq![least_factor(x as int) as u64] + factorization(
            ((x as int) / least_factor(x as int)) as u64,
        )
    }
}

#[via_fn]
proof fn factorization_decreases(x: u64) {
    if x > 1 {
        lemma_least_factor(x as int);
        lemma_div_decreases(x as int, least_factor(x as int));
        vstd::arithmetic::div_mod::lemma_div_pos_is_pos(x as int, least_factor(x as int));
    }
}

/// The product of a sequence of factors; 1 for the empty sequence.
pub open spec fn product(s: Seq<u64>) -> int
    decreases s.len(),
{
    if s.len() == 0 {
        1
    } else {
        (s[0] as int) * product(s.drop_first())
    }
}

/// A sequence with its runs of consecutive equal elements collapsed to
/// one element each.
pub open spec fn dedup(s: Seq<u64>) -> Seq<u64>
    decreases s.len(),
{
    if s.len() <= 1 {
        s
    } else if s[0] == s[1] {
        dedup(s.drop_first())
    } else {
        seq![s[0]] + dedup(s.drop_first())
    }
}

/// `y` with every power of `m` divided out.
pub open spec fn strip_factor(y: u64, m: u64) -> u64
    decreases y,
    via strip_factor_decreases
{
    if y >= 1 && m >= 2 && (y as int) % (m as int) == 0 {
        strip_factor(((y as int) / (m as int)) as u64, m)
    } else {
        y
    }
}

#[via_fn]
proof fn strip_factor_decreases(y: u64, m: u64) {
    if y >= 1 && m >= 2 && (y as int) % (m as int) == 0 {
        lemma_div_decreases(y as int, m as int);
        vstd::arithmetic::div_mod::lemma_div_pos_is_pos(y as int, m as int);
    }
}

/// If `c` divides `x` and nothing in `[2, c)` does, `c` is the least factor.
pub proof fn lemma_least_factor_eq(x: int, c: int)
    requires
        2 <= c <= x,
        x % c == 0,
        forall|d: int| 2 <= d < c ==> #[trigger] (x % d) != 0,
    ensures
        least_factor(x) == c,
{
    lemma_least_factor(x);
    let f = least_factor(x);
    if f < c {
        assert(x % f != 0);
    }
    if c < f {
        assert(x % c != 0);
    }
}

/// A prime is its own factorization.
pub proof fn lemma_factorization_of_prime(c: u64)
    requires
        is_prime_spec(c as int),
    ensures
        factorization(c) =~= seq![c],
        least_factor(c as int) == c as int,
{
    lemma_least_factor(c as int);
    let f = least_factor(c as int);
    if f < c as int {
        assert((c as int) % f != 0);
    }
    lemma_div_by_self(c as int);
    assert(factorization(c) =~= seq![c] + factorization(1u64));
    assert(seq![c] + factorization(1u64) =~= seq![c]);
}

/// Unfolding one step of the factorization of a composite number.
pub proof fn lemma_factorization_step(x: u64)
    requires
        x >= 2,
        !is_prime_spec(x as int),
    ensures
        least_factor(x as int) < x as int,
        factorization(x) == seq![least_factor(x as int) as u64] + factorization(
            ((x as int) / least_factor(x as int)) as u64,
        ),
        ((x as int) / least_factor(x as int)) as u64 >= 2,
        ((x as int) / least_factor(x as int)) * least_factor(x as int) == x as int,
{
    lemma_composite_has_small_factor(x as int);
    lemma_least_factor(x as int);
    let f = least_factor(x as int);
    lemma_fundamental_div_mod(x as int, f);
    let y = (x as int) / f;
    assert(x as int == f * y);
    assert(y * f == x as int) by (nonlinear_arith)
        requires
            x as int == f * y,
    ;
    assert(y >= 1) by (nonlinear_arith)
        requires
            x as int == f * y,
            x >= 2,
            f >= 2,
    ;
    if y == 1 {
        assert(x as int == f * 1);
        assert(x as int == f) by (nonlinear_arith)
            requires
                x as int == f * 1,
        ;
    }
}

/// The factorization of a number at least 2: nonempty, every element
/// prime and at least the least factor, non-decreasing, and multiplying
/// back to the number itself.
pub proof fn lemma_factorization(x: u64)
    requires
        x >= 2,
    ensures
        factorization(x).len() >= 1,
        forall|i: int|
            0 <= i < factorization(x).len() ==> is_prime_spec(
                #[trigger] factorization(x)[i] as int,
            ),
        forall|i: int|
            0 <= i < factorization(x).len() ==> (#[trigger] factorization(x)[i] as int)
                >= least_factor(x as int),
        forall|i: int, j: int|
            0 <= i <= j < factorization(x).len() ==> factorization(x)[i] <= factorization(x)[j],
        product(factorization(x)) == x as int,
        factorization(x)[0] as int == least_factor(x as int),
    decreases x,
{
    lemma_least_factor(x as int);
    lemma_least_factor_is_prime(x as int);
    let f = least_factor(x as int);
    let fz = factorization(x);
    if is_prime_spec(x as int) {
        lemma_factorization_of_prime(x);
        assert(fz =~= seq![x]);
        assert(product(fz) == (x as int) * product(fz.drop_first()));
        assert(fz.drop_first() =~= Seq::<u64>::empty());
    } else {
        lemma_factorization_step(x);
        let y = ((x as int) / f) as u64;
        lemma_factorization(y);
        let tail = factorization(y);
        assert(fz == seq![f as u64] + tail);
        assert(fz.len() == 1 + tail.len());
        assert(fz[0] == f as u64);
        assert(fz.drop_first() =~= tail);
        // The cofactor's least factor is no smaller: any divisor of the
        // cofactor divides the whole number.
        lemma_least_factor(y as int);
        let g = least_factor(y as int);
        assert((x as int) % (y as int) == 0) by {
            assert(x as int == (y as int) * f);
            lemma_fundamental_div_mod_converse_mod(x as int, y as int, f, 0);
        }
        assert(g >= f) by {
            lemma_divides_transitive(g, y as int, x as int);
            if g < f {
                assert((x as int) % g != 0);
            }
        }
        assert forall|i: int| 0 <= i < fz.len() implies (#[trigger] fz[i] as int) >= f by {
            if i > 0 {
                assert(fz[i] == tail[i - 1]);
                assert(tail[i - 1] as int >= g);
            }
        }
        assert forall|i: int, j: int| 0 <= i <= j < fz.len() implies fz[i] <= fz[j] by {
            if i > 0 {
                assert(fz[i] == tail[i - 1] && fz[j] == tail[j - 1]);
            } else if j > 0 {
                assert(fz[j] == tail[j - 1]);
                assert(tail[j - 1] as int >= g >= f);
            }
        }
        assert(product(fz) == f * product(tail));
        assert(product(tail) == y as int);
        assert(f * (y as int) == x as int) by (nonlinear_arith)
            requires
                ((x as int) / f) * f == x as int,
                y as int == (x as int) / f,
        ;
    }
}

/// Find the first factor (other than 1) of a number
fn firstfac(x: u64) -> (r: u64)
    requires
        x >= 2,
    ensures
        r as int == least_factor(x as int),
        2 <= r <= x,
{
    if x % 2 == 0 {
        proof {
            lemma_least_factor_eq(x as int, 2);
        }
        return 2;
    }
    let mut n: u64 = 3;
    loop
        invariant
            x >= 2,
            (x as int) % 2 != 0,
            3 <= n,
            n % 2 == 1,
            n as int <= x as int + 2,
            forall|d: int| 2 <= d < n ==> #[trigger] ((x as int) % d) != 0,
        decreases (x as int) + 2 - (n as int),
    {
        proof {
            lemma_square_fits_u128(n);
        }
        if (n as u128) * (n as u128) > (x as u128) {
            // No candidate up to the square root divides x, so x is prime
            // and is its own least factor.
            proof {
                if !is_prime_spec(x as int) {
                    lemma_composite_has_small_factor(x as int);
                    let q = least_factor(x as int);
                    assert(q < n as int) by (nonlinear_arith)
                        requires
                            q * q <= x as int,
                            (n as int) * (n as int) > x as int,
                            q >= 2,
                            n >= 2,
                    ;
                    assert((x as int) % q != 0);
                }
                lemma_factorization_of_prime(x);
            }
            return x;
        }
        if x % n == 0 {
            proof {
                assert(n <= x) by {
                    if n > x {
                        vstd::arithmetic::div_mod::lemma_small_mod(x as nat, n as nat);
                    }
                }
                lemma_least_factor_eq(x as int, n as int);
            }
            return n;
        }
        proof {
            // The next even candidate cannot divide an odd number.
            assert forall|d: int| 2 <= d < (n as int) + 2 implies #[trigger] ((x as int) % d)
                != 0 by {
                if d == n as int + 1 {
                    assert(d % 2 == 0) by {
                        assert((n as int) % 2 == 1);
                    }
                    if (x as int) % d == 0 {
                        lemma_fundamental_div_mod(d, 2);
                        lemma_divides_transitive(2, d, x as int);
                    }
                }
            }
            // n*n <= x keeps the candidate far below the type's range.
            assert((n as int) + 2 <= (x as int) + 2 && (n as int) < 0x1_0000_0000) by (
            nonlinear_arith)
                requires
                    (n as int) * (n as int) <= x as int,
                    x <= u64::MAX,
                    n >= 2,
            ;
        }
        n += 2;
    }
}

/// Find all prime factors of a number
/// Does not use a `PrimeSet`, but simply counts upwards
pub fn factors(x: u64) -> (r: Vec<u64>)
    ensures
        r@ == factorization(x),
{
    if x <= 1 {
        return Vec::new();
    }
    let mut lst: Vec<u64> = Vec::new();
    let mut curn = x;
    loop
        invariant_except_break
            2 <= curn <= x,
            factorization(x) == lst@ + factorization(curn),
        ensures
            lst@ == factorization(x),
        decreases curn,
    {
        let m = firstfac(curn);
        lst.push(m);
        if m == curn {
            // The cofactor is prime: the chain is complete.
            proof {
                assert(is_prime_spec(curn as int)) by {
                    lemma_least_factor(curn as int);
                    if !is_prime_spec(curn as int) {
                        lemma_composite_has_small_factor(curn as int);
                    }
                }
                lemma_factorization_of_prime(curn);
                assert(lst@ =~= (lst@.drop_last() + factorization(curn)));
                assert(factorization(x) == lst@);
            }
            break ;
        } else {
            proof {
                assert(!is_prime_spec(curn as int)) by {
                    lemma_factorization_of_prime_converse(curn, m);
                }
                lemma_factorization_step(curn);
                assert(factorization(x) == (lst@ + factorization(
                    ((curn as int) / (m as int)) as u64,
                ))) by {
                    assert(lst@.drop_last() + (seq![m] + factorization(
                        ((curn as int) / (m as int)) as u64,
                    )) =~= lst@ + factorization(((curn as int) / (m as int)) as u64));
                }
                lemma_div_decreases(curn as int, m as int);
                vstd::arithmetic::div_mod::lemma_div_nonincreasing(curn as int, m as int);
            }
            curn = curn / m;
        }
    }
    lst
}

/// A number strictly above its least factor is composite.
proof fn lemma_factorization_of_prime_converse(curn: u64, m: u64)
    requires
        curn >= 2,
        m as int == least_factor(curn as int),
        m != curn,
    ensures
        !is_prime_spec(curn as int),
{
    lemma_least_factor(curn as int);
    if is_prime_spec(curn as int) {
        assert((curn as int) % (m as int) == 0);
        assert((m as int) < (curn as int));
        if m >= 2 {
            assert((curn as int) % (m as int) != 0);
        }
    }
}

/// Collapsing runs in a factor chain: the chain of `y` begins with its
/// least factor `m`, and after all copies of `m` are divided out, what
/// remains (if anything) opens with a strictly larger factor.
proof fn lemma_dedup_strip(y: u64)
    requires
        y >= 2,
    ensures
        dedup(factorization(y)) == seq![least_factor(y as int) as u64] + dedup(
            factorization(strip_factor(y, least_factor(y as int) as u64)),
        ),
        strip_factor(y, least_factor(y as int) as u64) == 1 || (strip_factor(
            y,
            least_factor(y as int) as u64,
        ) >= 2 && least_factor(
            strip_factor(y, least_factor(y as int) as u64) as int,
        ) > least_factor(y as int)),
        strip_factor(y, least_factor(y as int) as u64) <= y,
    decreases y,
{
    lemma_least_factor(y as int);
    let m = least_factor(y as int) as u64;
    if is_prime_spec(y as int) {
        lemma_factorization_of_prime(y);
        assert(m == y);
        assert(strip_factor(y, m) == strip_factor(1u64, m)) by {
            lemma_div_by_self(y as int);
        }
        assert(strip_factor(1u64, m) == 1) by {
            vstd::arithmetic::div_mod::lemma_small_mod(1nat, m as nat);
        }
        assert(dedup(factorization(y)) =~= seq![m] + dedup(factorization(1u64)));
    } else {
        lemma_factorization_step(y);
        let y2 = ((y as int) / (m as int)) as u64;
        let fz = factorization(y);
        let tail = factorization(y2);
        lemma_factorization(y2);
        assert(strip_factor(y, m) == strip_factor(y2, m));
        lemma_least_factor(y2 as int);
        let g = least_factor(y2 as int);
        assert(g >= m as int) by {
            assert((y as int) % (y2 as int) == 0) by {
                assert(y as int == (y2 as int) * (m as int));
                lemma_fundamental_div_mod_converse_mod(y as int, y2 as int, m as int, 0);
            }
            lemma_divides_transitive(g, y2 as int, y as int);
            if g < m as int {
                assert((y as int) % g != 0);
            }
        }
        if (y2 as int) % (m as int) == 0 {
            assert(g == m as int) by {
                if g > m as int {
                    assert((y2 as int) % (m as int) != 0);
                }
            }
            lemma_dedup_strip(y2);
            assert(tail[0] == m);
            assert(fz[0] == m && fz[1] == m) by {
                assert(fz == seq![m] + tail);
            }
            assert(dedup(fz) == dedup(fz.drop_first()));
            assert(fz.drop_first() =~= tail);
            assert(strip_factor(y2, m) == strip_factor(y, m));
        } else {
            assert(strip_factor(y2, m) == y2);
            assert(g > m as int) by {
                if g == m as int {
                    assert((y2 as int) % (m as int) == 0);
                }
            }
            assert(fz == seq![m] + tail);
            assert(fz[0] == m);
            assert(fz[1] == tail[0]);
            assert(tail[0] as int == g) by {
                lemma_factorization(y2);
            }
            assert(fz[0] != fz[1]);
            assert(dedup(fz) == seq![fz[0]] + dedup(fz.drop_first()));
            assert(fz.drop_first() =~= tail);
        }
        assert(strip_factor(y, m) <= y2 <= y) by {
            lemma_strip_le(y2, m);
        }
    }
}

/// Dividing factors out never increases a number.
proof fn lemma_strip_le(y: u64, m: u64)
    ensures
        strip_factor(y, m) <= y,
    decreases y,
{
    if y >= 1 && m >= 2 && (y as int) % (m as int) == 0 {
        let y2 = ((y as int) / (m as int)) as u64;
        lemma_div_decreases(y as int, m as int);
        vstd::arithmetic::div_mod::lemma_div_pos_is_pos(y as int, m as int);
        lemma_strip_le(y2, m);
    }
}

/// Find all unique prime factors of a number
pub fn factors_uniq(x: u64) -> (r: Vec<u64>)
    ensures
        r@ == dedup(factorization(x)),
{
    if x <= 1 {
        return Vec::new();
    }
    let mut lst: Vec<u64> = Vec::new();
    let mut curn = x;
    loop
        invariant_except_break
            2 <= curn <= x,
            dedup(factorization(x)) == lst@ + dedup(factorization(curn)),
        ensures
            lst@ == dedup(factorization(x)),
        decreases curn,
    {
        let m = firstfac(curn);
        lst.push(m);
        if curn == m {
            // The remaining cofactor is prime: it closes the list.
            proof {
                assert(is_prime_spec(curn as int)) by {
                    lemma_least_factor(curn as int);
                    if !is_prime_spec(curn as int) {
                        lemma_composite_has_small_factor(curn as int);
                    }
                }
                lemma_factorization_of_prime(curn);
                assert(dedup(factorization(curn)) =~= seq![curn]);
                assert(lst@ =~= lst@.drop_last() + seq![curn]);
            }
            break ;
        }
        proof {
            lemma_dedup_strip(curn);
            assert(lst@.drop_last() + (seq![m] + dedup(
                factorization(strip_factor(curn, m)),
            )) =~= lst@ + dedup(factorization(strip_factor(curn, m))));
        }
        let ghost c0 = curn;
        while curn % m == 0
            invariant
                1 <= curn <= c0,
                m >= 2,
                strip_factor(c0, m) == strip_factor(curn, m),
            decreases curn,
        {
            proof {
                lemma_div_decreases(curn as int, m as int);
                assert(curn >= m) by {
                    if curn < m {
                        vstd::arithmetic::div_mod::lemma_small_mod(curn as nat, m as nat);
                    }
                }
                vstd::arithmetic::div_mod::lemma_div_non_zero(curn as int, m as int);
            }
            curn = curn / m;
        }
        proof {
            assert(strip_factor(curn, m) == curn);
            assert(strip_factor(c0, m) == curn);
        }
        if curn == 1 {
            proof {
                assert(dedup(factorization(1u64)) =~= Seq::<u64>::empty());
                assert(lst@ + Seq::<u64>::empty() =~= lst@);
            }
            break ;
        }
    }
    lst
}

/// The product of the first `k` factors of a chain.
pub open spec fn product_prefix(s: Seq<u64>, k: int) -> int
    decreases k,
{
    if k <= 0 {
        1
    } else {
        product_prefix(s, k - 1) * (s[k - 1] as int)
    }
}

proof fn lemma_product_prefix_cons(s: Seq<u64>, k: int)
    requires
        1 <= k <= s.len(),
    ensures
        product_prefix(s, k) == (s[0] as int) * product_prefix(s.drop_first(), k - 1),
    decreases k,
{
    let t = s.drop_first();
    if k == 1 {
        assert(product_prefix(s, 1) == product_prefix(s, 0) * (s[0] as int));
        assert(product_prefix(s, 0) == 1);
        assert(product_prefix(t, 0) == 1);
    } else {
        lemma_product_prefix_cons(s, k - 1);
        assert(s[k - 1] == t[k - 2]);
        assert(product_prefix(t, k - 1) == product_prefix(t, k - 2) * (t[k - 2] as int));
        assert(((s[0] as int) * product_prefix(t, k - 2)) * (t[k - 2] as int) == (s[0] as int) * (
        product_prefix(t, k - 2) * (t[k - 2] as int))) by (nonlinear_arith);
    }
}

proof fn lemma_product_eq_prefix(s: Seq<u64>)
    ensures
        product(s) == product_prefix(s, s.len() as int),
    decreases s.len(),
{
    if s.len() > 0 {
        lemma_product_eq_prefix(s.drop_first());
        lemma_product_prefix_cons(s, s.len() as int);
    }
}

proof fn lemma_product_prefix_bounds(s: Seq<u64>, k1: int, k2: int)
    requires
        forall|i: int| 0 <= i < s.len() ==> (#[trigger] s[i] as int) >= 1,
        0 <= k1 <= k2 <= s.len(),
    ensures
        1 <= product_prefix(s, k1) <= product_prefix(s, k2),
    decreases k2,
{
    if k2 == 0 {
    } else if k1 == k2 {
        lemma_product_prefix_bounds(s, k1 - 1, k2 - 1);
        assert(product_prefix(s, k1 - 1) * 1 <= product_prefix(s, k1 - 1) * (s[k1 - 1] as int))
            by (nonlinear_arith)
            requires
                product_prefix(s, k1 - 1) >= 1,
                (s[k1 - 1] as int) >= 1,
        ;
    } else {
        lemma_product_prefix_bounds(s, k1, k2 - 1);
        assert(product_prefix(s, k2 - 1) * 1 <= product_prefix(s, k2 - 1) * (s[k2 - 1] as int))
            by (nonlinear_arith)
            requires
                product_prefix(s, k2 - 1) >= 1,
                (s[k2 - 1] as int) >= 1,
        ;
    }
}

/// One factor's contribution to the totient: a factor repeating its
/// predecessor contributes itself, a fresh factor contributes one less
/// than itself.
pub open spec fn totient_term(s: Seq<u64>, i: int) -> int {
    if i <= 0 {
        s[0] as int - 1
    } else if s[i] == s[i - 1] {
        s[i] as int
    } else {
        s[i] as int - 1
    }
}

/// Euler's product rule folded over the first `k` factors of a chain.
pub open spec fn totient_fold(s: Seq<u64>, k: int) -> int
    decreases k,
{
    if k <= 0 {
        1
    } else {
        totient_fold(s, k - 1) * totient_term(s, k - 1)
    }
}

proof fn lemma_totient_fold_bounds(s: Seq<u64>, k: int)
    requires
        forall|i: int| 0 <= i < s.len() ==> (#[trigger] s[i] as int) >= 2,
        0 <= k <= s.len(),
    ensures
        1 <= totient_fold(s, k) <= product_prefix(s, k),
    decreases k,
{
    if k > 0 {
        lemma_totient_fold_bounds(s, k - 1);
        assert(1 <= totient_term(s, k - 1) <= s[k - 1] as int);
        assert(totient_fold(s, k - 1) * 1 <= totient_fold(s, k - 1) * totient_term(s, k - 1))
            by (nonlinear_arith)
            requires
                totient_fold(s, k - 1) >= 1,
                totient_term(s, k - 1) >= 1,
        ;
        assert(totient_fold(s, k - 1) * totient_term(s, k - 1) <= product_prefix(s, k - 1) * (s[k
            - 1] as int)) by (nonlinear_arith)
            requires
                1 <= totient_fold(s, k - 1) <= product_prefix(s, k - 1),
                1 <= totient_term(s, k - 1) <= s[k - 1] as int,
        ;
    }
}

/// Euler's totient function, the number of integers between 1 and n
/// inclusive that are relatively prime to n, computed as the product
/// rule folded over the factor chain of n.
pub fn totient(n: u64) -> (r: u64)
    ensures
        n == 0 ==> r == 0,
        n >= 1 ==> r as int == totient_fold(factorization(n), factorization(n).len() as int),
{
    if n == 0 {
        return 0;
    }
    let f = factors(n);
    proof {
        if n >= 2 {
            lemma_factorization(n);
            lemma_product_eq_prefix(f@);
        }
    }
    let mut r: u64 = 1;
    let mut prev: u64 = 1;
    let mut i: usize = 0;
    while i < f.len()
        invariant
            f@ == factorization(n),
            n >= 1,
            product_prefix(f@, f@.len() as int) == n as int,
            forall|k: int| 0 <= k < f@.len() ==> (#[trigger] f@[k] as int) >= 2,
            i <= f@.len(),
            r as int == totient_fold(f@, i as int),
            1 <= r,
            r as int <= product_prefix(f@, i as int),
            prev == if i == 0 {
                1u64
            } else {
                f@[i as int - 1]
            },
        decreases f@.len() - i,
    {
        let fi = f[i];
        proof {
            lemma_totient_fold_bounds(f@, i as int + 1);
            lemma_product_prefix_bounds(f@, i as int + 1, f@.len() as int);
            assert(r as int * (fi as int) <= product_prefix(f@, i as int) * (fi as int)) by (
            nonlinear_arith)
                requires
                    1 <= r as int <= product_prefix(f@, i as int),
                    fi as int >= 2,
            ;
        }
        if fi == prev {
            r = r * fi;
        } else {
            r = r * (fi - 1);
            proof {
                assert(r as int <= product_prefix(f@, i as int) * (fi as int)) by (
                nonlinear_arith)
                    requires
                        r as int == totient_fold(f@, i as int) * (fi as int - 1),
                        1 <= totient_fold(f@, i as int) <= product_prefix(f@, i as int),
                        fi as int >= 2,
                ;
            }
        }
        prev = fi;
        i += 1;
    }
    r
}

/// Test whether a number is prime. Checks every odd number up to `sqrt(n)`.
pub fn is_prime(n: u64) -> (r: bool)
    ensures
        r == is_prime_spec(n as int),
{
    if n <= 1 {
        return false;
    }
    let f = firstfac(n);
    proof {
        lemma_least_factor(n as int);
        if f == n {
            assert forall|d: int| 2 <= d < n as int implies #[trigger] ((n as int) % d) != 0 by {}
        } else {
            assert((n as int) % (f as int) == 0);
        }
    }
    f == n
}

} // verus!
