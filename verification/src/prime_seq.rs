//! The mathematical model of an engine's cache: a strictly increasing
//! sequence holding every prime up to its last element. Both engines
//! maintain this shape, which is why their caches can never disagree —
//! the uniqueness lemmas here are the heart of engine equivalence.

use crate::arith::is_prime_spec;
use vstd::prelude::*;

verus! {

/// Every element of the sequence is prime.
pub open spec fn all_primes(s: Seq<u64>) -> bool {
    forall|i: int| 0 <= i < s.len() ==> is_prime_spec(#[trigger] s[i] as int)
}

/// The sequence is strictly increasing, hence duplicate-free.
pub open spec fn strictly_increasing(s: Seq<u64>) -> bool {
    forall|i: int, j: int| 0 <= i < j < s.len() ==> s[i] < s[j]
}

/// No prime is skipped: every prime up to the last element appears.
pub open spec fn no_prime_skipped(s: Seq<u64>) -> bool {
    forall|p: u64|
        is_prime_spec(p as int) && s.len() > 0 && p <= s.last() ==> #[trigger] s.contains(p)
}

/// A cache of primes in its invariant shape: the first `len` primes in
/// ascending order.
pub open spec fn complete_prime_seq(s: Seq<u64>) -> bool {
    all_primes(s) && strictly_increasing(s) && no_prime_skipped(s)
}

/// After any sequence of `expand` calls the cache is strictly increasing
/// and duplicate-free: each call keeps the cache complete, and a complete
/// cache is sorted with no element repeated.
pub proof fn lemma_cache_monotonic(s: Seq<u64>)
    requires
        complete_prime_seq(s),
    ensures
        forall|i: int, j: int| 0 <= i < j < s.len() ==> s[i] < s[j],
        forall|i: int, j: int| 0 <= i < j < s.len() ==> s[i] != s[j],
{
}

/// One `expand` step succeeded: the cache grew by exactly one element.
pub open spec fn expand_success(pre: Seq<u64>, post: Seq<u64>) -> bool {
    post.len() == pre.len() + 1 && pre.is_prefix_of(post)
}

/// There is no prime left to find above the cache within the `u64` range.
/// This can only hold of a cache whose last element is near `u64::MAX`.
pub open spec fn no_more_primes(s: Seq<u64>) -> bool {
    s.len() > 0 && forall|q: int| s.last() < q <= u64::MAX ==> !is_prime_spec(q)
}

/// The caches the engines start from are complete.
pub proof fn lemma_seed_caches_complete()
    ensures
        complete_prime_seq(seq![2u64, 3u64]),
        complete_prime_seq(seq![2u64, 3u64, 5u64]),
{
    crate::arith::lemma_small_primes();
    let s2 = seq![2u64, 3u64];
    let s3 = seq![2u64, 3u64, 5u64];
    assert forall|p: u64| is_prime_spec(p as int) && p <= s2.last() implies #[trigger] s2.contains(
        p,
    ) by {
        assert(p == 2 || p == 3);
        if p == 2 {
            assert(s2[0] == 2u64);
        } else {
            assert(s2[1] == 3u64);
        }
    }
    assert forall|p: u64| is_prime_spec(p as int) && p <= s3.last() implies #[trigger] s3.contains(
        p,
    ) by {
        assert(p == 2 || p == 3 || p == 5) by {
            crate::arith::lemma_small_primes();
        }
        if p == 2 {
            assert(s3[0] == 2u64);
        } else if p == 3 {
            assert(s3[1] == 3u64);
        } else {
            assert(s3[2] == 5u64);
        }
    }
}

/// A prefix of a prefix is a prefix.
pub proof fn lemma_prefix_transitive(a: Seq<u64>, b: Seq<u64>, c: Seq<u64>)
    requires
        a.is_prefix_of(b),
        b.is_prefix_of(c),
    ensures
        a.is_prefix_of(c),
{
    assert forall|i: int| 0 <= i < a.len() implies a[i] == c[i] by {
        assert(a[i] == b.subrange(0, a.len() as int)[i]);
        assert(b[i] == c.subrange(0, b.len() as int)[i]);
    }
    assert(a =~= c.subrange(0, a.len() as int));
}

/// In a strictly increasing sequence, any member is at most the last element.
pub proof fn lemma_member_le_last(s: Seq<u64>, x: u64)
    requires
        strictly_increasing(s),
        s.contains(x),
    ensures
        s.len() > 0,
        x <= s.last(),
{
    let k = choose|k: int| 0 <= k < s.len() && s[k] == x;
    if k < s.len() - 1 {
        assert(s[k] < s[s.len() - 1]);
    }
}

/// A strictly increasing sequence of primes grows at least as fast as the
/// indices: the element at position `i` is at least `i + 2`.
pub proof fn lemma_index_lower_bound(s: Seq<u64>, i: int)
    requires
        all_primes(s),
        strictly_increasing(s),
        0 <= i < s.len(),
    ensures
        s[i] >= i + 2,
    decreases i,
{
    if i == 0 {
        assert(is_prime_spec(s[0] as int));
    } else {
        lemma_index_lower_bound(s, i - 1);
        assert(s[i - 1] < s[i]);
    }
}

/// A successful `expand` appends exactly the next prime: the element a
/// step adds is prime, lies above the old last element, and no prime
/// sits between the two.
pub proof fn lemma_expand_appends_next_prime(pre: Seq<u64>, post: Seq<u64>)
    requires
        complete_prime_seq(pre),
        complete_prime_seq(post),
        pre.len() >= 1,
        expand_success(pre, post),
    ensures
        (pre.last() as int) < post.last() as int,
        is_prime_spec(post.last() as int),
        forall|q: int|
            (pre.last() as int) < q < (post.last() as int) ==> !is_prime_spec(q),
{
    let x = post.last();
    assert(pre.last() == post[pre.len() - 1]) by {
        assert(pre.last() == post.subrange(0, pre.len() as int)[pre.len() - 1]);
    }
    assert(post[pre.len() - 1] < post[post.len() - 1]);
    assert forall|q: int| (pre.last() as int) < q < (post.last() as int) implies !is_prime_spec(
        q,
    ) by {
        if is_prime_spec(q) {
            let qu = q as u64;
            assert(post.contains(qu));
            let k = choose|k: int| 0 <= k < post.len() && post[k] == qu;
            assert(k < post.len() - 1) by {
                if k == post.len() - 1 {
                    assert(post[k] == x);
                }
            }
            assert(post[k] == pre[k]) by {
                assert(pre[k] == post.subrange(0, pre.len() as int)[k]);
            }
            lemma_member_le_last(pre, pre[k]);
        }
    }
}

/// Appending the least prime above a complete cache keeps it complete.
pub proof fn lemma_push_next_prime(pre: Seq<u64>, p: u64)
    requires
        complete_prime_seq(pre),
        pre.len() >= 1,
        is_prime_spec(p as int),
        (pre.last() as int) < p as int,
        forall|x: int| (pre.last() as int) < x && x < (p as int) ==> !is_prime_spec(x),
    ensures
        complete_prime_seq(pre.push(p)),
        expand_success(pre, pre.push(p)),
        pre.push(p).last() == p,
        pre.is_prefix_of(pre.push(p)),
{
    let post = pre.push(p);
    assert(post.last() == p);
    assert forall|i: int, j: int| 0 <= i < j < post.len() implies post[i] < post[j] by {
        if j < post.len() - 1 {
            assert(pre[i] == post[i] && pre[j] == post[j]);
        } else {
            assert(post[i] == pre[i]);
            lemma_member_le_last(pre, pre[i]);
        }
    }
    assert forall|q: u64| is_prime_spec(q as int) && q <= post.last() implies #[trigger] post
        .contains(q) by {
        if (q as int) < p as int {
            if (q as int) > pre.last() as int {
                assert(!is_prime_spec(q as int));
            }
            assert(pre.contains(q));
            let k = choose|k: int| 0 <= k < pre.len() && pre[k] == q;
            assert(post[k] == q);
        } else {
            assert(post[post.len() - 1] == q);
        }
    }
    assert(pre.is_prefix_of(post)) by {
        assert(post.subrange(0, pre.len() as int) =~= pre);
    }
}

/// Two complete prime caches agree at every position both of them hold:
/// a cache's contents are determined by its length alone, whichever
/// engine grew it.
pub proof fn lemma_complete_prime_seq_agree(s1: Seq<u64>, s2: Seq<u64>, i: int)
    requires
        complete_prime_seq(s1),
        complete_prime_seq(s2),
        0 <= i < s1.len(),
        i < s2.len(),
    ensures
        s1[i] == s2[i],
    decreases i,
{
    assert forall|j: int| 0 <= j < i implies s1[j] == s2[j] by {
        lemma_complete_prime_seq_agree(s1, s2, j);
    }
    assert forall|a: Seq<u64>, b: Seq<u64>|
        complete_prime_seq(a) && complete_prime_seq(b) && i < a.len() && i < b.len() && (forall|
            j: int,
        |
            0 <= j < i ==> a[j] == b[j]) implies !(#[trigger] (a[i]) < #[trigger] (b[i])) by {
        if a[i] < b[i] {
            let p = a[i];
            assert(is_prime_spec(p as int));
            assert(p <= b.last()) by {
                if i < b.len() - 1 {
                    assert(b[i] < b[b.len() - 1]);
                }
            }
            assert(b.contains(p));
            let k = choose|k: int| 0 <= k < b.len() && b[k] == p;
            if k < i {
                assert(a[k] == b[k]);
                assert(a[k] < a[i]);
            } else if k == i {
                assert(b[i] == p);
            } else {
                assert(b[i] < b[k]);
            }
        }
    }
    assert(!(s1[i] < s2[i]));
    assert(!(s2[i] < s1[i]));
}

/// The result of a lower-bound search for `n` over a complete cache is
/// the same whichever complete cache it is run on: both the index and
/// the prime found are functions of `n` alone.
pub proof fn lemma_lower_bound_unique(s1: Seq<u64>, s2: Seq<u64>, n: u64, i1: int, i2: int)
    requires
        complete_prime_seq(s1),
        complete_prime_seq(s2),
        0 <= i1 < s1.len(),
        0 <= i2 < s2.len(),
        s1[i1] >= n,
        s2[i2] >= n,
        forall|j: int| 0 <= j < i1 ==> s1[j] < n,
        forall|j: int| 0 <= j < i2 ==> s2[j] < n,
    ensures
        i1 == i2,
        s1[i1] == s2[i2],
{
    if i1 < i2 {
        lemma_complete_prime_seq_agree(s1, s2, i1);
        assert(s2[i1] < n);
    }
    if i2 < i1 {
        lemma_complete_prime_seq_agree(s1, s2, i2);
        assert(s1[i2] < n);
    }
    lemma_complete_prime_seq_agree(s1, s2, i1);
}

/// Searching for the prime a search has already returned changes
/// nothing: a lower-bound search for a prime `p` lands exactly on `p`,
/// at the same index, in any complete cache that covers it — whatever
/// expansion happened between the two searches.
pub proof fn lemma_find_idempotent(s1: Seq<u64>, s2: Seq<u64>, p: u64, i1: int, i2: int)
    requires
        complete_prime_seq(s1),
        complete_prime_seq(s2),
        is_prime_spec(p as int),
        0 <= i1 < s1.len(),
        0 <= i2 < s2.len(),
        s1[i1] >= p,
        s2[i2] >= p,
        forall|j: int| 0 <= j < i1 ==> s1[j] < p,
        forall|j: int| 0 <= j < i2 ==> s2[j] < p,
    ensures
        i1 == i2,
        s1[i1] == p,
        s2[i2] == p,
{
    lemma_lower_bound_on_prime(s1, p, i1);
    lemma_lower_bound_on_prime(s2, p, i2);
    lemma_lower_bound_unique(s1, s2, p, i1, i2);
}

/// A lower-bound search for a prime `n` lands exactly on `n`.
pub proof fn lemma_lower_bound_on_prime(s: Seq<u64>, n: u64, i: int)
    requires
        complete_prime_seq(s),
        is_prime_spec(n as int),
        0 <= i < s.len(),
        s[i] >= n,
        forall|j: int| 0 <= j < i ==> s[j] < n,
    ensures
        s[i] == n,
{
    if s[i] > n {
        assert(n <= s.last()) by {
            if i < s.len() - 1 {
                assert(s[i] < s[s.len() - 1]);
            }
        }
        assert(s.contains(n));
        let k = choose|k: int| 0 <= k < s.len() && s[k] == n;
        if k < i {
            assert(s[k] < n);
        } else if k > i {
            assert(s[i] < s[k]);
        }
    }
}

/// Between a lower-bound result and its target there is no prime: the
/// prime found is the smallest prime not below `n`.
pub proof fn lemma_no_prime_between(s: Seq<u64>, n: u64, i: int)
    requires
        complete_prime_seq(s),
        0 <= i < s.len(),
        forall|j: int| 0 <= j < i ==> s[j] < n,
    ensures
        forall|q: int| n <= q < s[i] ==> !is_prime_spec(q),
{
    assert forall|q: int| n <= q < s[i] implies !is_prime_spec(q) by {
        if is_prime_spec(q) {
            let qu = q as u64;
            assert(qu <= s.last()) by {
                if i < s.len() - 1 {
                    assert(s[i] < s[s.len() - 1]);
                }
            }
            assert(s.contains(qu));
            let k = choose|k: int| 0 <= k < s.len() && s[k] == qu;
            if k < i {
                assert(s[k] < n);
            } else {
                assert(s[i] <= s[k]) by {
                    if i < k {
                        assert(s[i] < s[k]);
                    }
                }
            }
        }
    }
}

} // verus!
