//! A prime generator using the Trial Division method: each odd candidate
//! is divided by the primes already found, up to the first whose square
//! exceeds the candidate.

use crate::arith::{is_prime_spec, lemma_composite_has_small_factor, lemma_prime_odd};
use crate::prime_seq::{
    complete_prime_seq, lemma_index_lower_bound, lemma_member_le_last, lemma_push_next_prime,
    lemma_seed_caches_complete, no_more_primes,
};
use crate::prime_set::PrimeSetBasics;
use vstd::prelude::*;

verus! {

/// A prime generator, using the Trial Division method.
///
/// Create with `TrialDivision::new()`; the cache starts at `[2, 3]` and
/// `expand` appends the next prime each time it is called.
#[derive(Clone)]
pub struct TrialDivision {
    lst: Vec<u64>,
}

impl TrialDivision {
    /// A new prime generator, primed with 2 and 3
    pub fn new() -> (r: TrialDivision)
        ensures
            r.wf(),
            r.cache() == seq![2u64, 3u64],
    {
        proof {
            lemma_seed_caches_complete();
        }
        let mut lst: Vec<u64> = Vec::new();
        lst.push(2);
        lst.push(3);
        assert(lst@ =~= seq![2u64, 3u64]);
        TrialDivision { lst }
    }

    /// The element of the cache at position `index`; the position must be
    /// within the primes found so far.
    pub fn index(&self, index: usize) -> (r: u64)
        requires
            index < self.cache().len(),
        ensures
            r == self.cache()[index as int],
    {
        self.lst[index]
    }

    /// Decides whether the candidate `l`, lying strictly above a complete
    /// cache of primes with no prime in between, is itself prime, by
    /// trial division against the cache.
    fn next_candidate_is_prime(lst: &Vec<u64>, l: u64) -> (r: bool)
        requires
            complete_prime_seq(lst@),
            lst@.len() >= 1,
            lst@.last() < l,
            forall|x: int| lst@.last() < x < l ==> !is_prime_spec(x),
        ensures
            r == is_prime_spec(l as int),
    {
        let ghost last = lst@.last() as int;
        let len = lst.len();
        let mut j: usize = 0;
        loop
            invariant
                complete_prime_seq(lst@),
                lst@.len() == len >= 1,
                last == lst@.last() as int,
                last < l,
                forall|x: int| last < x < l ==> !is_prime_spec(x),
                j <= len,
                forall|k: int|
                    0 <= k < j ==> (l as int) % (#[trigger] lst@[k] as int) != 0 && (lst@[k] as int)
                        * (lst@[k] as int) <= l,
            ensures
                j == len,
                forall|k: int|
                    0 <= k < len ==> (l as int) % (#[trigger] lst@[k] as int) != 0 && (
                    lst@[k] as int) * (lst@[k] as int) <= l,
            decreases len - j,
        {
            if j >= len {
                break ;
            }
            let n = lst[j];
            proof {
                crate::arith::lemma_square_fits_u128(n);
            }
            if l % n == 0 {
                // A cached prime divides the candidate: it is composite.
                proof {
                    assert(lst@.contains(lst@[j as int]));
                    lemma_member_le_last(lst@, lst@[j as int]);
                    assert(2 <= (n as int) && (n as int) < (l as int));
                    assert((l as int) % (n as int) == 0);
                }
                return false;
            }
            if (n as u128) * (n as u128) > (l as u128) {
                // No cached prime up to the square root divides the
                // candidate, and no prime hides between the cache and the
                // candidate, so the candidate is prime.
                proof {
                    if !is_prime_spec(l as int) {
                        lemma_composite_has_small_factor(l as int);
                        let q = crate::arith::least_factor(l as int);
                        if q <= last {
                            assert(lst@.contains(q as u64));
                            let k = choose|k: int| 0 <= k < lst@.len() && lst@[k] == q as u64;
                            assert(q < n as int) by (nonlinear_arith)
                                requires
                                    q * q <= l as int,
                                    (n as int) * (n as int) > l as int,
                                    q >= 2,
                                    n as int >= 2,
                            ;
                            assert(k < j) by {
                                if k >= j {
                                    if k > j as int {
                                        assert(lst@[j as int] < lst@[k]);
                                    }
                                }
                            }
                            assert((l as int) % (lst@[k] as int) != 0);
                        } else {
                            assert(q < l as int) by (nonlinear_arith)
                                requires
                                    q * q <= l as int,
                                    q >= 2,
                            ;
                            assert(!is_prime_spec(q));
                        }
                    }
                }
                return true;
            }
            j += 1;
        }
        // Every cached prime was tested without finding a divisor.
        proof {
            if !is_prime_spec(l as int) {
                lemma_composite_has_small_factor(l as int);
                let q = crate::arith::least_factor(l as int);
                if q <= last {
                    assert(lst@.contains(q as u64));
                    let k = choose|k: int| 0 <= k < lst@.len() && lst@[k] == q as u64;
                    assert((l as int) % (lst@[k] as int) != 0);
                } else {
                    assert(q < l as int) by (nonlinear_arith)
                        requires
                            q * q <= l as int,
                            q >= 2,
                    ;
                    assert(!is_prime_spec(q));
                }
            }
        }
        true
    }
}

impl Default for TrialDivision {
    /// The same state `new` gives: a cache primed with 2 and 3.
    fn default() -> (r: TrialDivision)
        ensures
            r.wf(),
            r.cache() == seq![2u64, 3u64],
    {
        TrialDivision::new()
    }
}

impl PrimeSetBasics for TrialDivision {
    closed spec fn cache(&self) -> Seq<u64> {
        self.lst@
    }

    closed spec fn wf(&self) -> bool {
        complete_prime_seq(self.lst@) && self.lst@.len() >= 2
    }

    proof fn lemma_wf_cache(&self) {
    }

    /// Finds one more prime, and adds it to the list
    fn expand(&mut self) {
        let ghost pre = self.lst@;
        let len = self.lst.len();
        let last = self.lst[len - 1];
        proof {
            assert(last == pre.last());
            lemma_index_lower_bound(pre, len - 1);
            assert(last as int >= len + 1 >= 3);
            lemma_prime_odd(last as int);
            // The largest u64 is a multiple of 3, so the largest cached
            // prime lies at least two below it and `last + 2` cannot wrap.
            assert(u64::MAX as int % 3 == 0);
            if last == u64::MAX {
                assert((last as int) % 3 == 0 && 2 <= 3 && 3 < (last as int));
                assert(!is_prime_spec(last as int));
            }
        }
        proof {
            assert forall|x: int| (last as int) < x && x < (last as int) + 2 implies !is_prime_spec(
                x,
            ) by {
                assert(x == last as int + 1);
                assert(x % 2 == 0) by {
                    assert(last as int % 2 == 1);
                }
                assert(2 <= 2 && 2 < x && x % 2 == 0);
            }
        }
        let mut l: u64 = last + 2;
        loop
            invariant
                pre == old(self).lst@,
                self.lst@ == pre,
                complete_prime_seq(pre),
                pre.len() >= 2,
                last == pre.last(),
                3 <= last as int,
                last % 2 == 1,
                l % 2 == 1,
                last < l,
                forall|x: int| (last as int) < x && x < (l as int) ==> !is_prime_spec(x),
            decreases u64::MAX - l,
        {
            let accepted = Self::next_candidate_is_prime(&self.lst, l);
            if accepted {
                proof {
                    lemma_push_next_prime(pre, l);
                }
                self.lst.push(l);
                return ;
            }
            if l >= u64::MAX - 1 {
                // The whole odd range up to the largest u64 has been ruled
                // out: there is no prime left to find in the type's range.
                proof {
                    assert(l == u64::MAX);
                    assert forall|q: int| (last as int) < q && q <= (u64::MAX as int) implies !is_prime_spec(
                        q,
                    ) by {
                        if q == u64::MAX as int {
                            assert(!is_prime_spec(l as int));
                        }
                    }
                    assert(no_more_primes(self.lst@));
                    assert(pre.is_prefix_of(pre)) by {
                        assert(pre.subrange(0, pre.len() as int) =~= pre);
                    }
                }
                return ;
            }
            proof {
                assert(l as int + 2 <= u64::MAX);
                assert forall|x: int| (last as int) < x && x < (l as int) + 2 implies !is_prime_spec(x) by {
                    if x == l as int {
                        assert(!is_prime_spec(l as int));
                    } else if x == l as int + 1 {
                        assert(x % 2 == 0 && x > 2) by {
                            assert(l % 2 == 1);
                        }
                        assert(2 <= 2 < x && x % 2 == 0);
                    }
                }
            }
            l = l + 2;
        }
    }

    /// Return all primes found so far as a slice
    fn list(&self) -> (r: &[u64]) {
        self.lst.as_slice()
    }
}

} // verus!
