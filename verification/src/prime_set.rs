//! The shared contract of a prime generator — grow the cache by one
//! prime (`expand`) and read the cache (`list`) — and everything a
//! consumer can do with a growing cache, written once against that
//! contract: lazy iteration, bounded binary search, search with
//! expansion, primality testing and factorization.

use crate::arith::{
    is_prime_spec, least_factor, lemma_composite_has_small_factor, lemma_divides_transitive,
    lemma_least_factor, lemma_small_primes, lemma_square_fits_u128,
};
use crate::factorization::{factorization, lemma_factorization_of_prime};
use crate::prime_seq::{
    complete_prime_seq, expand_success, lemma_index_lower_bound, lemma_member_le_last,
    lemma_no_prime_between, lemma_lower_bound_on_prime, lemma_prefix_transitive, no_more_primes,
};
use vstd::arithmetic::div_mod::{lemma_fundamental_div_mod, lemma_small_mod};
use vstd::prelude::*;

verus! {

pub trait PrimeSetBasics: Sized {
    /// The primes found so far, as a mathematical sequence.
    spec fn cache(&self) -> Seq<u64>;

    /// The engine's internal invariant.
    spec fn wf(&self) -> bool;

    /// A well-formed engine's cache is complete: strictly increasing,
    /// all prime, with no prime below its last element missing.
    proof fn lemma_wf_cache(&self)
        requires
            self.wf(),
        ensures
            complete_prime_seq(self.cache()),
            self.cache().len() >= 2,
    ;

    /// Finds one more prime, and adds it to the list. The cache can fail
    /// to grow only when no prime above it is representable at all.
    fn expand(&mut self)
        requires
            old(self).wf(),
        ensures
            final(self).wf(),
            old(self).cache().is_prefix_of(final(self).cache()),
            expand_success(old(self).cache(), final(self).cache()) || (final(self).cache()
                == old(self).cache() && no_more_primes(final(self).cache())),
    ;

    /// Return all primes found so far as a slice
    fn list(&self) -> (r: &[u64])
        ensures
            r@ == self.cache(),
    ;
}

/// An iterator over generated primes. Created by `PrimeSet::iter` or
/// `PrimeSet::generator`. It holds a cursor into the engine's cache and
/// borrows the engine only for the duration of each `next` call.
pub struct PrimeSetIter {
    n: usize,
    expand: bool,
}

impl PrimeSetIter {
    /// The position in the prime sequence the next call will yield.
    pub closed spec fn pos(&self) -> int {
        self.n as int
    }

    /// Whether this iterator may grow the engine's cache on demand.
    pub closed spec fn expands(&self) -> bool {
        self.expand
    }

    /// The prime at this iterator's position, read from the cache, which
    /// is grown on demand if this iterator is allowed to. `None` only
    /// when the cache cannot reach the position: immediately for a
    /// non-expanding iterator, and for an expanding one only in the
    /// unreachable situation that no representable prime is left.
    pub fn next<P: PrimeSetBasics>(&mut self, ps: &mut P) -> (r: Option<u64>)
        requires
            old(ps).wf(),
        ensures
            final(ps).wf(),
            old(ps).cache().is_prefix_of(final(ps).cache()),
            final(self).expands() == old(self).expands(),
            match r {
                Some(p) => {
                    &&& final(self).pos() == old(self).pos() + 1
                    &&& old(self).pos() < final(ps).cache().len()
                    &&& p == final(ps).cache()[old(self).pos()]
                },
                None => {
                    &&& final(self).pos() == old(self).pos()
                    &&& old(self).pos() >= final(ps).cache().len()
                    &&& (old(self).expands() ==> no_more_primes(final(ps).cache()))
                    &&& (!old(self).expands() ==> final(ps).cache() == old(ps).cache())
                },
            },
    {
        loop
            invariant
                ps.wf(),
                old(ps).cache().is_prefix_of(ps.cache()),
                self.n == old(self).n,
                self.expand == old(self).expand,
                !self.expand ==> ps.cache() == old(ps).cache(),
            ensures
                (self.n as int) < ps.cache().len(),
                ps.wf(),
                old(ps).cache().is_prefix_of(ps.cache()),
                self.n == old(self).n,
                self.expand == old(self).expand,
            decreases (self.n as int) + 1 - ps.cache().len(),
        {
            let len = ps.list().len();
            if self.n < len {
                break ;
            }
            if !self.expand {
                return None;
            }
            let ghost mid = ps.cache();
            ps.expand();
            proof {
                lemma_prefix_transitive(old(ps).cache(), mid, ps.cache());
            }
            if ps.list().len() == len {
                return None;
            }
        }
        let m = ps.list()[self.n];
        self.n += 1;
        Some(m)
    }
}

pub trait PrimeSet: PrimeSetBasics {
    /// Number of primes found so far
    fn len(&self) -> (r: usize)
        ensures
            r == self.cache().len(),
    {
        self.list().len()
    }

    fn is_empty(&self) -> (r: bool)
        ensures
            r == (self.cache().len() == 0),
    {
        self.list().len() == 0
    }

    /// Iterator over all primes not yet found
    fn generator(&self) -> (it: PrimeSetIter)
        ensures
            it.pos() == self.cache().len(),
            it.expands(),
    {
        PrimeSetIter { n: self.list().len(), expand: true }
    }

    /// Iterator over all primes, starting with 2. If you don't care about
    /// the "state" of the `PrimeSet`, this is what you want!
    fn iter(&self) -> (it: PrimeSetIter)
        ensures
            it.pos() == 0,
            it.expands(),
    {
        PrimeSetIter { n: 0, expand: true }
    }

    /// Iterator over just the primes found so far
    fn iter_vec(&self) -> (it: PrimeSetIter)
        ensures
            it.pos() == 0,
            !it.expands(),
    {
        PrimeSetIter { n: 0, expand: false }
    }

    /// Find the next largest prime from a number, if it is within the
    /// already-found list
    ///
    /// Returns `(idx, prime)`
    ///
    /// Note that if `n` is prime, then the output will be `(idx, n)`
    fn find_vec(&self, n: u64) -> (r: Option<(usize, u64)>)
        requires
            self.wf(),
        ensures
            match r {
                None => (self.cache().last() as int) < n as int,
                Some((i, p)) => {
                    &&& n <= self.cache().last()
                    &&& (i as int) < self.cache().len()
                    &&& p == self.cache()[i as int]
                    &&& p >= n
                    &&& forall|j: int| 0 <= j < i as int ==> self.cache()[j] < n
                },
            },
    {
        proof {
            self.lemma_wf_cache();
        }
        let lst = self.list();
        let len = lst.len();
        let last = lst[len - 1];
        if n > last {
            return None;
        }
        let mut base: usize = 0;
        let mut lim: usize = len;

        // Binary search algorithm
        while lim != 0
            invariant
                self.wf(),
                lst@ == self.cache(),
                len == self.cache().len(),
                1 <= len,
                base + lim <= len,
                n <= last,
                last == self.cache().last(),
                forall|j: int| 0 <= j < base ==> self.cache()[j] < n,
                forall|j: int| base + lim <= j < len ==> self.cache()[j] >= n,
            decreases lim,
        {
            proof {
                self.lemma_wf_cache();
            }
            let ix = base + lim / 2;
            let v = lst[ix];
            if v == n {
                proof {
                    assert forall|j: int| 0 <= j < ix as int implies self.cache()[j] < n by {
                        assert(self.cache()[j] < self.cache()[ix as int]);
                    }
                }
                return Some((ix, v));
            }
            if v < n {
                proof {
                    assert forall|j: int| 0 <= j < ix as int + 1 implies self.cache()[j] < n by {
                        if j < ix as int {
                            assert(self.cache()[j] < self.cache()[ix as int]);
                        }
                    }
                    assert((ix as int) + 1 + ((lim as int) - 1) / 2 + ((lim as int) - 1) / 2 + 1
                        >= (base as int) + (lim as int)) by {
                        lemma_fundamental_div_mod((lim as int) - 1, 2);
                    }
                }
                base = ix + 1;
                lim = lim - 1;
            } else {
                proof {
                    assert forall|j: int|
                        (base as int) + (lim as int) / 2 <= j < len implies self.cache()[j]
                        >= n by {
                        if j > ix as int {
                            assert(self.cache()[ix as int] < self.cache()[j]);
                        }
                    }
                }
            }
            lim = lim / 2;
        }
        proof {
            assert(base < len) by {
                if base == len {
                    assert(self.cache()[len - 1] < n);
                }
            }
            assert(self.cache()[base as int] >= n);
        }
        let p = lst[base];
        Some((base, p))
    }

    /// Find the next largest prime from a number
    ///
    /// Returns `(idx, prime)`
    ///
    /// Note that if `n` is prime, then the output will be `(idx, n)`
    fn find(&mut self, n: u64) -> (r: (usize, u64))
        requires
            old(self).wf(),
        ensures
            final(self).wf(),
            old(self).cache().is_prefix_of(final(self).cache()),
            (r.0 as int) < final(self).cache().len(),
            r.1 == final(self).cache()[r.0 as int],
            is_prime_spec(r.1 as int),
            forall|j: int| 0 <= j < r.0 as int ==> final(self).cache()[j] < n,
            r.1 >= n ==> (forall|q: int| n as int <= q < r.1 as int ==> !is_prime_spec(q)),
            r.1 < n ==> no_more_primes(final(self).cache()) && r.0 as int + 1 == final(self).cache().len(),
            is_prime_spec(n as int) ==> r.1 == n,
    {
        loop
            invariant
                self.wf(),
                old(self).cache().is_prefix_of(self.cache()),
            ensures
                self.wf(),
                old(self).cache().is_prefix_of(self.cache()),
                n <= self.cache().last() || no_more_primes(self.cache()),
            decreases (if (n as int) >= (self.cache().last() as int) {
                (n as int) - (self.cache().last() as int)
            } else {
                0int
            }),
        {
            proof {
                self.lemma_wf_cache();
            }
            let len0 = self.list().len();
            let last = self.list()[len0 - 1];
            if n <= last {
                break ;
            }
            let ghost mid = self.cache();
            self.expand();
            proof {
                lemma_prefix_transitive(old(self).cache(), mid, self.cache());
            }
            if self.list().len() == len0 {
                break ;
            }
            proof {
                // The appended prime lies above the previous last element,
                // so the search strictly advances.
                self.lemma_wf_cache();
                let post = self.cache();
                assert(mid[len0 - 1] == post[len0 - 1]) by {
                    assert(mid[len0 - 1] == post.subrange(0, mid.len() as int)[len0 - 1]);
                }
                assert(post[len0 - 1] < post[len0 as int]);
                assert(post.last() == post[len0 as int]);
                assert((mid.last() as int) < (self.cache().last() as int));
            }
        }
        proof {
            self.lemma_wf_cache();
        }
        let fv = self.find_vec(n);
        match fv {
            Some(ip) => {
                proof {
                    lemma_no_prime_between(self.cache(), n, ip.0 as int);
                    if is_prime_spec(n as int) {
                        lemma_lower_bound_on_prime(self.cache(), n, ip.0 as int);
                    }
                }
                ip
            },
            None => {
                // No representable prime reaches n; the last cached prime
                // closes the search.
                proof {
                    if is_prime_spec(n as int) {
                        assert(!is_prime_spec(n as int)) by {
                            assert((self.cache().last() as int) < n as int <= u64::MAX as int);
                        }
                    }
                    assert forall|j: int|
                        0 <= j < self.cache().len() - 1 implies self.cache()[j] < n by {
                        assert(self.cache()[j] < self.cache()[self.cache().len() - 1]);
                    }
                }
                let len = self.list().len();
                let last = self.list()[len - 1];
                (len - 1, last)
            },
        }
    }

    /// Check if a number is prime
    ///
    /// Note that this only requires primes up to `n.sqrt()` to be
    /// generated, and will generate them as necessary on its own.
    fn is_prime(&mut self, n: u64) -> (r: bool)
        requires
            old(self).wf(),
        ensures
            final(self).wf(),
            old(self).cache().is_prefix_of(final(self).cache()),
            r == is_prime_spec(n as int),
    {
        if n <= 1 {
            proof {
                lemma_small_primes();
            }
            return false;
        }
        if n == 2 {
            proof {
                lemma_small_primes();
            }
            return true;
        }
        let mut idx: usize = 0;
        loop
            invariant
                self.wf(),
                old(self).cache().is_prefix_of(self.cache()),
                n >= 3,
                idx as int <= self.cache().len(),
                idx <= 0xFFFF_FFFF,
                forall|k: int|
                    0 <= k < idx as int ==> (n as int) % (#[trigger] self.cache()[k] as int) != 0
                        && (self.cache()[k] as int) * (self.cache()[k] as int) <= n as int,
            decreases 0x1_0000_0002int - (idx as int), (if (idx as int) < self.cache().len() {
                0int
            } else {
                1int
            }),
        {
            proof {
                self.lemma_wf_cache();
            }
            let len = self.list().len();
            if idx >= len {
                let ghost mid = self.cache();
                self.expand();
                proof {
                    lemma_prefix_transitive(old(self).cache(), mid, self.cache());
                }
                if self.list().len() == len {
                    // Unreachable: every cached prime was ruled out as a
                    // factor and none exceeded the square root, yet the
                    // cache misses no representable prime.
                    proof {
                        self.lemma_wf_cache();
                        let cache = self.cache();
                        lemma_least_factor(n as int);
                        crate::arith::lemma_least_factor_is_prime(n as int);
                        let q = least_factor(n as int);
                        if q <= cache.last() as int {
                            assert(cache.contains(q as u64));
                            let k = choose|k: int| 0 <= k < cache.len() && cache[k] == q as u64;
                            assert((n as int) % (cache[k] as int) != 0);
                        } else {
                            assert(!is_prime_spec(q)) by {
                                assert((cache.last() as int) < q <= u64::MAX as int);
                            }
                        }
                        assert(false);
                    }
                    return false;
                }
                proof {
                    assert forall|k: int|
                        0 <= k < idx as int implies (n as int) % (
                    #[trigger] self.cache()[k] as int) != 0 && (self.cache()[k] as int) * (
                    self.cache()[k] as int) <= n as int by {
                        assert(self.cache()[k] == mid[k]) by {
                            assert(mid[k] == self.cache().subrange(0, mid.len() as int)[k]);
                        }
                    }
                }
            } else {
                let m = self.list()[idx];
                proof {
                    assert(self.cache().contains(self.cache()[idx as int]));
                    assert(is_prime_spec(m as int));
                }
                if n % m == 0 {
                    if m < n {
                        proof {
                            assert(2 <= (m as int) && (m as int) < (n as int));
                        }
                        return false;
                    } else {
                        // The scan has walked all the way up to n itself,
                        // which therefore sits in the cache and is prime.
                        proof {
                            if m > n {
                                lemma_small_mod(n as nat, m as nat);
                            }
                            assert(m == n);
                        }
                        return true;
                    }
                }
                proof {
                    lemma_square_fits_u128(m);
                }
                if (m as u128) * (m as u128) > (n as u128) {
                    proof {
                        if !is_prime_spec(n as int) {
                            lemma_composite_has_small_factor(n as int);
                            let q = least_factor(n as int);
                            assert(q < m as int) by (nonlinear_arith)
                                requires
                                    q * q <= n as int,
                                    (m as int) * (m as int) > n as int,
                                    q >= 2,
                                    m as int >= 2,
                            ;
                            lemma_member_le_last(self.cache(), m);
                            assert(self.cache().contains(q as u64));
                            let k = choose|k: int|
                                0 <= k < self.cache().len() && self.cache()[k] == q as u64;
                            assert(k < idx as int) by {
                                if k >= idx as int {
                                    if k > idx as int {
                                        assert(self.cache()[idx as int] < self.cache()[k]);
                                    }
                                }
                            }
                            assert((n as int) % (self.cache()[k] as int) != 0);
                        }
                    }
                    return true;
                }
                proof {
                    lemma_index_lower_bound(self.cache(), idx as int);
                    assert((idx as int) + 2 <= m as int);
                    assert((m as int) < 0x1_0000_0000) by (nonlinear_arith)
                        requires
                            (m as int) * (m as int) <= n as int,
                            n <= u64::MAX,
                            m as int >= 2,
                    ;
                }
                idx += 1;
            }
        }
    }

    /// Get the nth prime, even if we haven't yet found it
    fn get(&mut self, index: usize) -> (r: u64)
        requires
            old(self).wf(),
        ensures
            final(self).wf(),
            old(self).cache().is_prefix_of(final(self).cache()),
            (index as int) < final(self).cache().len() ==> r == final(self).cache()[index as int],
            (index as int) >= final(self).cache().len() ==> no_more_primes(final(self).cache())
                && r == final(self).cache().last(),
    {
        loop
            invariant
                self.wf(),
                old(self).cache().is_prefix_of(self.cache()),
            ensures
                self.wf(),
                old(self).cache().is_prefix_of(self.cache()),
                (index as int) < self.cache().len() || no_more_primes(self.cache()),
            decreases (index as int) + 1 - self.cache().len(),
        {
            proof {
                self.lemma_wf_cache();
            }
            let len0 = self.list().len();
            if index < len0 {
                break ;
            }
            let ghost mid = self.cache();
            self.expand();
            proof {
                lemma_prefix_transitive(old(self).cache(), mid, self.cache());
            }
            if self.list().len() == len0 {
                break ;
            }
        }
        proof {
            self.lemma_wf_cache();
        }
        let len = self.list().len();
        if index < len {
            self.list()[index]
        } else {
            self.list()[len - 1]
        }
    }

    /// Get the prime factors of a number, starting from 2, including repeats
    fn prime_factors(&mut self, n: u64) -> (r: Vec<u64>)
        requires
            old(self).wf(),
        ensures
            final(self).wf(),
            old(self).cache().is_prefix_of(final(self).cache()),
            r@ == factorization(n),
    {
        if n <= 1 {
            return Vec::new();
        }
        let mut curn = n;
        let mut lst: Vec<u64> = Vec::new();
        let mut idx: usize = 0;
        loop
            invariant
                self.wf(),
                old(self).cache().is_prefix_of(self.cache()),
                2 <= curn <= n,
                factorization(n) == lst@ + factorization(curn),
                idx as int <= self.cache().len(),
                idx <= 0xFFFF_FFFF,
                forall|k: int|
                    0 <= k < idx as int ==> (curn as int) % (#[trigger] self.cache()[k] as int)
                        != 0,
            decreases (curn as int), 0x1_0000_0002int - (idx as int), (if (idx as int)
                < self.cache().len() {
                0int
            } else {
                1int
            }),
        {
            proof {
                self.lemma_wf_cache();
            }
            let len = self.list().len();
            if idx >= len {
                let ghost mid = self.cache();
                self.expand();
                proof {
                    lemma_prefix_transitive(old(self).cache(), mid, self.cache());
                }
                if self.list().len() == len {
                    // Unreachable: the remaining cofactor has a least
                    // prime factor, which is neither cached (none of the
                    // cached primes divide it) nor beyond the cache.
                    proof {
                        self.lemma_wf_cache();
                        let cache = self.cache();
                        lemma_least_factor(curn as int);
                        crate::arith::lemma_least_factor_is_prime(curn as int);
                        let q = least_factor(curn as int);
                        if q <= cache.last() as int {
                            assert(cache.contains(q as u64));
                            let k = choose|k: int| 0 <= k < cache.len() && cache[k] == q as u64;
                            assert((curn as int) % (cache[k] as int) != 0);
                        } else {
                            assert(!is_prime_spec(q)) by {
                                assert((cache.last() as int) < q <= u64::MAX as int);
                            }
                        }
                        assert(false);
                    }
                    return lst;
                }
                proof {
                    assert forall|k: int|
                        0 <= k < idx as int implies (curn as int) % (
                    #[trigger] self.cache()[k] as int) != 0 by {
                        assert(self.cache()[k] == mid[k]) by {
                            assert(mid[k] == self.cache().subrange(0, mid.len() as int)[k]);
                        }
                    }
                }
            } else {
                let p = self.list()[idx];
                proof {
                    assert(self.cache().contains(self.cache()[idx as int]));
                    assert(is_prime_spec(p as int));
                    lemma_member_le_last(self.cache(), p);
                }
                if curn % p == 0 {
                    // p is the least factor of the cofactor: every smaller
                    // prime was already ruled out.
                    proof {
                        lemma_least_factor(curn as int);
                        let q = least_factor(curn as int);
                        assert(q == p as int) by {
                            crate::arith::lemma_least_factor_is_prime(curn as int);
                            if q < p as int {
                                assert(self.cache().contains(q as u64));
                                let k = choose|k: int|
                                    0 <= k < self.cache().len() && self.cache()[k] == q as u64;
                                assert(k < idx as int) by {
                                    if k >= idx as int {
                                        if k > idx as int {
                                            assert(self.cache()[idx as int] < self.cache()[k]);
                                        }
                                    }
                                }
                                assert((curn as int) % (self.cache()[k] as int) != 0);
                            }
                            if q > p as int {
                                assert((curn as int) % (p as int) != 0);
                            }
                        }
                        assert(factorization(curn) == seq![p] + factorization(
                            ((curn as int) / (p as int)) as u64,
                        ));
                        vstd::arithmetic::div_mod::lemma_div_decreases(curn as int, p as int);
                        assert(curn >= p) by {
                            if curn < p {
                                lemma_small_mod(curn as nat, p as nat);
                            }
                        }
                        vstd::arithmetic::div_mod::lemma_div_non_zero(curn as int, p as int);
                        assert((lst@ + seq![p]) + factorization(((curn as int) / (p as int)) as u64)
                            =~= lst@ + (seq![p] + factorization(
                            ((curn as int) / (p as int)) as u64,
                        )));
                    }
                    lst.push(p);
                    let curn2 = curn / p;
                    if curn2 == 1 {
                        proof {
                            assert(factorization(1u64) =~= Seq::<u64>::empty());
                            assert(lst@ + Seq::<u64>::empty() =~= lst@);
                        }
                        return lst;
                    }
                    proof {
                        // No previously checked prime divides the smaller
                        // cofactor either, since it divides the old one.
                        assert forall|k: int|
                            0 <= k < idx as int implies (curn2 as int) % (
                        #[trigger] self.cache()[k] as int) != 0 by {
                            if (curn2 as int) % (self.cache()[k] as int) == 0 {
                                assert((curn as int) % (curn2 as int) == 0) by {
                                    assert(curn as int == (curn2 as int) * (p as int)) by {
                                        lemma_fundamental_div_mod(curn as int, p as int);
                                        assert((p as int) * (curn2 as int) == (curn2 as int) * (
                                        p as int)) by (nonlinear_arith);
                                    }
                                    vstd::arithmetic::div_mod::lemma_fundamental_div_mod_converse_mod(
                                        curn as int,
                                        curn2 as int,
                                        p as int,
                                        0,
                                    );
                                }
                                lemma_divides_transitive(
                                    self.cache()[k] as int,
                                    curn2 as int,
                                    curn as int,
                                );
                            }
                        }
                    }
                    curn = curn2;
                } else {
                    proof {
                        lemma_square_fits_u128(p);
                    }
                    if (p as u128) * (p as u128) > (curn as u128) {
                        // The cofactor has no factor up to its square
                        // root: it is prime and completes the chain.
                        proof {
                            if !is_prime_spec(curn as int) {
                                lemma_composite_has_small_factor(curn as int);
                                let q = least_factor(curn as int);
                                assert(q < p as int) by (nonlinear_arith)
                                    requires
                                        q * q <= curn as int,
                                        (p as int) * (p as int) > curn as int,
                                        q >= 2,
                                        p as int >= 2,
                                ;
                                assert(self.cache().contains(q as u64));
                                let k = choose|k: int|
                                    0 <= k < self.cache().len() && self.cache()[k] == q as u64;
                                assert(k < idx as int) by {
                                    if k >= idx as int {
                                        if k > idx as int {
                                            assert(self.cache()[idx as int] < self.cache()[k]);
                                        }
                                    }
                                }
                                assert((curn as int) % (self.cache()[k] as int) != 0);
                            }
                            lemma_factorization_of_prime(curn);
                            assert(lst@ + seq![curn] =~= lst@.push(curn));
                        }
                        lst.push(curn);
                        return lst;
                    }
                    proof {
                        lemma_index_lower_bound(self.cache(), idx as int);
                        assert((idx as int) + 2 <= p as int);
                        assert((p as int) < 0x1_0000_0000) by (nonlinear_arith)
                            requires
                                (p as int) * (p as int) <= curn as int,
                                curn <= u64::MAX,
                                p as int >= 2,
                        ;
                    }
                    idx += 1;
                }
            }
        }
    }
}

impl<P: PrimeSetBasics> PrimeSet for P {
}

} // verus!
