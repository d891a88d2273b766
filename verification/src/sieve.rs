//! A prime generator using an incremental sieve: a wheel over the
//! candidates coprime to 30 runs together with a queue of pending
//! composites, one per discovered prime. A candidate that no pending
//! composite matches has survived every smaller prime's crossings and is
//! itself prime.

use crate::arith::{
    is_prime_spec, least_factor, lemma_composite_has_small_factor, lemma_small_primes,
    lemma_square_fits_u128,
};
use crate::prime_seq::{
    complete_prime_seq, expand_success, lemma_member_le_last, lemma_push_next_prime,
    lemma_seed_caches_complete, no_more_primes,
};
use crate::prime_set::PrimeSetBasics;
use crate::wheel::{coprime30, lemma_noncoprime30_composite, Wheel30};
use vstd::arithmetic::div_mod::{
    lemma_div_by_multiple, lemma_fundamental_div_mod, lemma_mod_multiples_basic,
    lemma_mod_multiples_vanish,
};
use vstd::prelude::*;

verus! {

/// One pending crossing-off: the least odd multiple of `factor`, at
/// least `factor` squared, that the wheel has not yet passed.
#[derive(Clone, Copy)]
struct SieveEntry {
    composite: u128,
    factor: u64,
}

/// The largest composite an entry may carry: the square of the largest
/// value a `u64` can hold.
spec fn composite_cap() -> int {
    (u64::MAX as int) * (u64::MAX as int)
}

/// What each queue entry maintains, relative to the current candidate:
/// its composite is an odd multiple of its prime factor, no smaller than
/// the factor's square, and the previous such multiple (if any) lies
/// strictly below the candidate — every smaller odd multiple has been
/// passed already.
spec fn entry_ok(e: SieveEntry, cand: int) -> bool {
    &&& is_prime_spec(e.factor as int)
    &&& 7 <= e.factor
    &&& (e.composite as int) % (e.factor as int) == 0
    &&& ((e.composite as int) / (e.factor as int)) % 2 == 1
    &&& (e.factor as int) * (e.factor as int) <= e.composite as int
    &&& (e.composite as int == (e.factor as int) * (e.factor as int)) || (e.composite as int) - 2
        * (e.factor as int) < cand
    &&& e.composite as int <= composite_cap()
}

/// The queue as a whole: every entry is in shape, every entry's factor
/// is a cached prime, no prime owns two entries, and every cached prime
/// from 7 on owns one.
spec fn heap_ok(entries: Seq<SieveEntry>, primes: Seq<u64>, cand: int) -> bool {
    &&& forall|k: int| 0 <= k < entries.len() ==> entry_ok(#[trigger] entries[k], cand)
    &&& forall|k: int| 0 <= k < entries.len() ==> primes.contains((#[trigger] entries[k]).factor)
    &&& forall|k1: int, k2: int|
        0 <= k1 < k2 < entries.len() ==> entries[k1].factor != entries[k2].factor
    &&& forall|q: u64|
        #[trigger] primes.contains(q) && q >= 7 ==> exists|k: int|
            0 <= k < entries.len() && (#[trigger] entries[k]).factor == q
}

/// How far one entry still lags behind the candidate.
spec fn entry_debt(e: SieveEntry, cand: int) -> int {
    if (e.composite as int) < cand + 2 * (e.factor as int) {
        cand + 2 * (e.factor as int) - (e.composite as int)
    } else {
        0
    }
}

/// The lag of the whole queue; the sieve loop's termination measure.
spec fn heap_debt(entries: Seq<SieveEntry>, cand: int) -> int
    decreases entries.len(),
{
    if entries.len() == 0 {
        0
    } else {
        entry_debt(entries[0], cand) + heap_debt(entries.drop_first(), cand)
    }
}

proof fn lemma_heap_debt_nonneg(entries: Seq<SieveEntry>, cand: int)
    ensures
        heap_debt(entries, cand) >= 0,
    decreases entries.len(),
{
    if entries.len() > 0 {
        lemma_heap_debt_nonneg(entries.drop_first(), cand);
    }
}

proof fn lemma_heap_debt_update(entries: Seq<SieveEntry>, cand: int, i: int, e2: SieveEntry)
    requires
        0 <= i < entries.len(),
    ensures
        heap_debt(entries.update(i, e2), cand) == heap_debt(entries, cand) - entry_debt(
            entries[i],
            cand,
        ) + entry_debt(e2, cand),
    decreases entries.len(),
{
    let upd = entries.update(i, e2);
    if i == 0 {
        assert(upd.drop_first() =~= entries.drop_first());
    } else {
        assert(upd.drop_first() =~= entries.drop_first().update(i - 1, e2));
        lemma_heap_debt_update(entries.drop_first(), cand, i - 1, e2);
    }
}

/// A candidate coprime to 30 that every queue entry's composite strictly
/// exceeds, over a cache holding every prime below the candidate, is
/// prime: were it composite, its least prime factor's entry could not
/// have fallen so far behind.
proof fn lemma_candidate_prime(entries: Seq<SieveEntry>, primes: Seq<u64>, cand: int)
    requires
        complete_prime_seq(primes),
        primes.len() >= 1,
        heap_ok(entries, primes, cand),
        coprime30(cand),
        7 <= cand,
        cand <= u64::MAX as int,
        (primes.last() as int) < cand,
        forall|p: u64| is_prime_spec(p as int) && (p as int) < cand ==> primes.contains(p),
        forall|k: int| 0 <= k < entries.len() ==> (#[trigger] entries[k]).composite as int > cand,
    ensures
        is_prime_spec(cand),
{
    if !is_prime_spec(cand) {
        lemma_composite_has_small_factor(cand);
        let q = least_factor(cand);
        assert(q != 2 && q != 3 && q != 5) by {
            if q == 2 {
                assert(cand % 2 == 0);
            }
            if q == 3 {
                assert(cand % 3 == 0);
            }
            if q == 5 {
                assert(cand % 5 == 0);
            }
        }
        assert(q >= 7) by {
            assert(q != 4 && q != 6) by {
                assert(4int % 2 == 0 && 6int % 2 == 0);
            }
        }
        assert(primes.contains(q as u64));
        let k = choose|k: int| 0 <= k < entries.len() && (#[trigger] entries[k]).factor == q as u64;
        let e = entries[k];
        let c = e.composite as int;
        let f = e.factor as int;
        assert(f == q);
        assert(c > cand);
        // The candidate is an odd multiple of q ...
        lemma_fundamental_div_mod(cand, q);
        let j = cand / q;
        assert(cand == q * j);
        assert(j >= 1) by (nonlinear_arith)
            requires
                cand == q * j,
                cand >= 7,
                q >= 7,
        ;
        assert(j % 2 == 1) by {
            lemma_fundamental_div_mod(j, 2);
            if j % 2 == 0 {
                let m = j / 2;
                assert(cand == (q * m) * 2) by (nonlinear_arith)
                    requires
                        cand == q * j,
                        j == 2 * m,
                ;
                lemma_mod_multiples_basic(q * m, 2);
                assert(cand % 2 == 0);
            }
        }
        // ... no smaller than q squared ...
        if c == f * f {
            assert(q * q <= cand);
        } else {
            // ... and consecutive odd multiples of q differ by 2q, so the
            // candidate cannot lie in the window the entry already covered.
            assert(c - 2 * f < cand);
            lemma_fundamental_div_mod(c, f);
            let jc = c / f;
            assert(c == f * jc);
            assert(j < jc) by (nonlinear_arith)
                requires
                    cand == q * j,
                    c == q * jc,
                    cand < c,
                    q >= 7,
            ;
            assert(j + 2 <= jc) by {
                if j + 1 == jc {
                    lemma_fundamental_div_mod(j, 2);
                    let m = j / 2;
                    assert(j == 2 * m + 1);
                    assert(jc % 2 == 0) by {
                        assert(jc == (m + 1) * 2) by (nonlinear_arith)
                            requires
                                jc == 2 * m + 2,
                        ;
                        lemma_mod_multiples_basic(m + 1, 2);
                    }
                }
            }
            assert(cand <= c - 2 * q) by (nonlinear_arith)
                requires
                    cand == q * j,
                    c == q * jc,
                    j + 2 <= jc,
                    q >= 7,
            ;
        }
    }
}

/// Advancing one entry by twice its factor keeps the queue in shape,
/// judged against any candidate that its old composite lies below.
proof fn lemma_advance_entry(
    entries: Seq<SieveEntry>,
    primes: Seq<u64>,
    cand: int,
    cand2: int,
    i: int,
    e2: SieveEntry,
)
    requires
        heap_ok(entries, primes, cand),
        0 <= i < entries.len(),
        cand <= cand2,
        (entries[i].composite as int) < cand2,
        entries[i].composite as int <= u64::MAX as int + 30,
        e2.factor == entries[i].factor,
        e2.composite as int == entries[i].composite as int + 2 * (entries[i].factor as int),
    ensures
        heap_ok(entries.update(i, e2), primes, cand2),
{
    let upd = entries.update(i, e2);
    let e = entries[i];
    let c = e.composite as int;
    let f = e.factor as int;
    assert(entry_ok(e, cand));
    // The advanced entry is still an odd multiple of its factor.
    lemma_fundamental_div_mod(c, f);
    let j = c / f;
    assert(c == f * j);
    assert(e2.composite as int == f * (j + 2)) by (nonlinear_arith)
        requires
            c == f * j,
            e2.composite as int == c + 2 * f,
    ;
    assert((e2.composite as int) % f == 0) by {
        lemma_mod_multiples_vanish(j + 2, 0, f);
        assert(f * (j + 2) + 0 == e2.composite as int);
    }
    assert((e2.composite as int) / f == j + 2) by {
        assert(e2.composite as int == (j + 2) * f) by (nonlinear_arith)
            requires
                e2.composite as int == f * (j + 2),
        ;
        assert(j + 2 >= 0) by (nonlinear_arith)
            requires
                c == f * j,
                c >= 0,
                f >= 7,
        ;
        lemma_div_by_multiple(j + 2, f);
    }
    assert((j + 2) % 2 == j % 2) by {
        lemma_mod_multiples_vanish(1, j, 2);
    }
    assert(entry_ok(e2, cand2)) by {
        assert(f * f <= c < e2.composite as int);
        assert(e2.composite as int - 2 * f == c < cand2);
        assert(e2.composite as int <= u64::MAX as int + 30 + 2 * (u64::MAX as int));
        assert(u64::MAX as int + 30 + 2 * (u64::MAX as int) <= composite_cap()) by (nonlinear_arith);
    }
    assert forall|k: int| 0 <= k < upd.len() implies entry_ok(#[trigger] upd[k], cand2) by {
        if k != i {
            assert(entry_ok(entries[k], cand));
        }
    }
    assert forall|k: int| 0 <= k < upd.len() implies primes.contains((#[trigger] upd[k]).factor) by {
        if k != i {
            assert(primes.contains(entries[k].factor));
        } else {
            assert(primes.contains(entries[i].factor));
        }
    }
    assert forall|k1: int, k2: int| 0 <= k1 < k2 < upd.len() implies upd[k1].factor
        != upd[k2].factor by {
        assert(entries[k1].factor != entries[k2].factor);
    }
    assert forall|q: u64| #[trigger] primes.contains(q) && q >= 7 implies exists|k: int|
        0 <= k < upd.len() && (#[trigger] upd[k]).factor == q by {
        let k0 = choose|k: int|
            0 <= k < entries.len() && (#[trigger] entries[k]).factor == q;
        assert(upd[k0].factor == q);
    }
}

/// Appending a freshly proven prime to the cache and its square to the
/// queue restores the engine's shape, judged against the candidate the
/// wheel moved on to.
proof fn lemma_emit(
    entries: Seq<SieveEntry>,
    primes: Seq<u64>,
    cand: int,
    wv: int,
    p: u64,
    e2: SieveEntry,
)
    requires
        complete_prime_seq(primes),
        primes.len() >= 1,
        heap_ok(entries, primes, cand),
        is_prime_spec(cand),
        coprime30(cand),
        p as int == cand,
        7 <= cand,
        cand <= u64::MAX as int,
        (primes.last() as int) < cand,
        cand < wv,
        forall|p2: u64| is_prime_spec(p2 as int) && (p2 as int) < cand ==> primes.contains(p2),
        forall|y: int| cand < y && y < wv ==> !coprime30(y),
        e2.factor == p,
        e2.composite as int == (p as int) * (p as int),
    ensures
        complete_prime_seq(primes.push(p)),
        expand_success(primes, primes.push(p)),
        primes.is_prefix_of(primes.push(p)),
        primes.push(p).last() == p,
        forall|p2: u64|
            is_prime_spec(p2 as int) && (p2 as int) < wv ==> primes.push(p).contains(p2),
        heap_ok(entries.push(e2), primes.push(p), wv),
{
    let post = primes.push(p);
    assert forall|x: int| (primes.last() as int) < x && x < cand implies !is_prime_spec(x) by {
        if is_prime_spec(x) {
            let xu = x as u64;
            assert(primes.contains(xu));
            lemma_member_le_last(primes, xu);
        }
    }
    lemma_push_next_prime(primes, p);
    assert forall|p2: u64| is_prime_spec(p2 as int) && (p2 as int) < wv implies post.contains(
        p2,
    ) by {
        if (p2 as int) < cand {
            assert(primes.contains(p2));
            let k = choose|k: int| 0 <= k < primes.len() && primes[k] == p2;
            assert(post[k] == p2);
        } else if (p2 as int) == cand {
            assert(post[post.len() - 1] == p2);
        } else {
            assert(!coprime30(p2 as int));
            lemma_noncoprime30_composite(p2 as int);
        }
    }
    // The new entry: the prime's square, an odd multiple of the prime.
    let c2 = e2.composite as int;
    let f = p as int;
    assert(entry_ok(e2, wv)) by {
        assert(c2 % f == 0) by {
            lemma_mod_multiples_basic(f, f);
        }
        assert(c2 / f == f) by {
            lemma_div_by_multiple(f, f);
        }
        assert(f % 2 == 1) by {
            assert(f % 2 != 0);
        }
        assert(c2 <= composite_cap()) by (nonlinear_arith)
            requires
                c2 == f * f,
                0 <= f <= u64::MAX as int,
        ;
    }
    let pushed = entries.push(e2);
    assert forall|k: int| 0 <= k < pushed.len() implies entry_ok(#[trigger] pushed[k], wv) by {
        if k < entries.len() {
            assert(entry_ok(entries[k], cand));
        }
    }
    assert forall|k: int| 0 <= k < pushed.len() implies post.contains(
        (#[trigger] pushed[k]).factor,
    ) by {
        if k < entries.len() {
            assert(primes.contains(entries[k].factor));
            let k2 = choose|k2: int| 0 <= k2 < primes.len() && primes[k2] == entries[k].factor;
            assert(post[k2] == entries[k].factor);
        } else {
            assert(post[post.len() - 1] == p);
        }
    }
    assert forall|k1: int, k2: int| 0 <= k1 < k2 < pushed.len() implies pushed[k1].factor
        != pushed[k2].factor by {
        if k2 < entries.len() {
            assert(entries[k1].factor != entries[k2].factor);
        } else {
            assert(primes.contains(entries[k1].factor));
            lemma_member_le_last(primes, entries[k1].factor);
        }
    }
    assert forall|q: u64| #[trigger] post.contains(q) && q >= 7 implies exists|k: int|
        0 <= k < pushed.len() && (#[trigger] pushed[k]).factor == q by {
        let kq = choose|kq: int| 0 <= kq < post.len() && post[kq] == q;
        if kq < primes.len() {
            assert(primes.contains(q));
            let k0 = choose|k: int|
                0 <= k < entries.len() && (#[trigger] entries[k]).factor == q;
            assert(pushed[k0].factor == q);
        } else {
            assert(q == p);
            assert(pushed[pushed.len() - 1].factor == q);
        }
    }
}

/// A prime generator, using the Sieve of Eratosthenes method. This is
/// asymptotically more efficient than the Trial Division method, but
/// slower earlier on.
#[derive(Clone)]
pub struct Sieve {
    primes: Vec<u64>,
    wheel: Wheel30,
    // Entries pair composites with their prime factors.
    //
    // Every prime from 7 on is in here once.
    //
    // Each entry corresponds to the next composite to be "crossed off" by
    // the given prime, not including any composite the wheel has passed.
    //
    // The queue is kept as a flat list scanned for its minimum; its order
    // is irrelevant, only which entries it holds.
    sieve: Vec<SieveEntry>,
}

impl Sieve {
    /// A new prime generator, primed with 2, 3 and 5
    pub fn new() -> (r: Sieve)
        ensures
            r.wf(),
            r.cache() == seq![2u64, 3u64, 5u64],
    {
        proof {
            lemma_seed_caches_complete();
            lemma_small_primes();
        }
        let mut primes: Vec<u64> = Vec::new();
        primes.push(2);
        primes.push(3);
        primes.push(5);
        assert(primes@ =~= seq![2u64, 3u64, 5u64]);
        let r = Sieve { primes, sieve: Vec::new(), wheel: Wheel30 { base: 0, ix: 1 } };
        proof {
            assert(r.wheel.value() == 7);
            assert forall|p: u64|
                is_prime_spec(p as int) && (p as int) < r.wheel.value() implies r.primes@.contains(
                p,
            ) by {
                assert(2 <= p as int && (p as int) < 7);
                assert(p as int == 2 || p as int == 3 || p as int == 5) by {
                    if p as int == 4 {
                        assert(4int % 2 == 0);
                    }
                    if p as int == 6 {
                        assert(6int % 2 == 0);
                    }
                }
                if p == 2 {
                    assert(r.primes@[0] == 2u64);
                } else if p == 3 {
                    assert(r.primes@[1] == 3u64);
                } else {
                    assert(r.primes@[2] == 5u64);
                }
            }
        }
        r
    }

    // insert a prime and its composite.
    fn insert(&mut self, prime: u64, composite: u128)
        ensures
            final(self).sieve@ == old(self).sieve@.push(SieveEntry { composite, factor: prime }),
            final(self).primes == old(self).primes,
            final(self).wheel == old(self).wheel,
    {
        self.sieve.push(SieveEntry { composite, factor: prime });
    }

    /// The position of an entry with the smallest pending composite.
    fn min_entry_index(&self) -> (r: Option<usize>)
        ensures
            match r {
                None => self.sieve@.len() == 0,
                Some(i) => 0 <= i < self.sieve@.len() && forall|k: int|
                    0 <= k < self.sieve@.len() ==> (#[trigger] self.sieve@[k]).composite
                        >= self.sieve@[i as int].composite,
            },
    {
        if self.sieve.len() == 0 {
            return None;
        }
        let mut best: usize = 0;
        let mut idx: usize = 1;
        loop
            invariant
                0 < idx <= self.sieve@.len(),
                best < idx,
                forall|k: int|
                    0 <= k < idx ==> (#[trigger] self.sieve@[k]).composite
                        >= self.sieve@[best as int].composite,
            ensures
                best < self.sieve@.len(),
                forall|k: int|
                    0 <= k < self.sieve@.len() ==> (#[trigger] self.sieve@[k]).composite
                        >= self.sieve@[best as int].composite,
            decreases self.sieve@.len() - idx,
        {
            if idx >= self.sieve.len() {
                break ;
            }
            if self.sieve[idx].composite < self.sieve[best].composite {
                best = idx;
            }
            idx += 1;
        }
        Some(best)
    }
}

impl Default for Sieve {
    /// The same state `new` gives: a cache primed with 2, 3 and 5.
    fn default() -> (r: Sieve)
        ensures
            r.wf(),
            r.cache() == seq![2u64, 3u64, 5u64],
    {
        Sieve::new()
    }
}

impl PrimeSetBasics for Sieve {
    closed spec fn cache(&self) -> Seq<u64> {
        self.primes@
    }

    closed spec fn wf(&self) -> bool {
        &&& complete_prime_seq(self.primes@)
        &&& self.primes@.len() >= 3
        &&& self.wheel.wf()
        &&& 7 <= self.wheel.value()
        &&& self.wheel.value() <= u64::MAX as int + 60
        &&& (self.primes@.last() as int) < self.wheel.value()
        &&& forall|p: u64|
            is_prime_spec(p as int) && (p as int) < self.wheel.value() ==> self.primes@.contains(p)
        &&& heap_ok(self.sieve@, self.primes@, self.wheel.value())
    }

    proof fn lemma_wf_cache(&self) {
    }

    /// Finds one more prime, and adds it to the list
    fn expand(&mut self) {
        let ghost pre = self.primes@;
        let v = self.wheel.peek();
        if v > u64::MAX as u128 {
            // Every representable prime is already cached: nothing to add.
            proof {
                assert forall|q: int|
                    (pre.last() as int) < q && q <= (u64::MAX as int) implies !is_prime_spec(q) by {
                    if is_prime_spec(q) {
                        let qu = q as u64;
                        assert(pre.contains(qu));
                        lemma_member_le_last(pre, qu);
                    }
                }
                assert(pre.is_prefix_of(pre)) by {
                    assert(pre.subrange(0, pre.len() as int) =~= pre);
                }
            }
            return ;
        }
        let mut nextp: u128 = self.wheel.next();
        loop
            invariant
                pre == old(self).primes@,
                self.primes@ == pre,
                complete_prime_seq(pre),
                pre.len() >= 3,
                self.wheel.wf(),
                7 <= nextp as int,
                nextp as int <= u64::MAX as int + 30,
                coprime30(nextp as int),
                (pre.last() as int) < nextp as int,
                forall|p: u64|
                    is_prime_spec(p as int) && (p as int) < (nextp as int) ==> pre.contains(p),
                (nextp as int) < self.wheel.value(),
                self.wheel.value() <= nextp as int + 30,
                forall|y: int| (nextp as int) < y && y < self.wheel.value() ==> !coprime30(y),
                heap_ok(self.sieve@, pre, nextp as int),
            decreases (u64::MAX as int) + 30 - (nextp as int), heap_debt(
                self.sieve@,
                nextp as int,
            ),
        {
            proof {
                lemma_heap_debt_nonneg(self.sieve@, nextp as int);
            }
            if nextp > u64::MAX as u128 {
                // The wheel has run past the largest u64: every
                // representable prime is already cached.
                proof {
                    assert forall|q: int|
                        (pre.last() as int) < q && q <= (u64::MAX as int) implies !is_prime_spec(
                        q,
                    ) by {
                        if is_prime_spec(q) {
                            let qu = q as u64;
                            assert(pre.contains(qu));
                            lemma_member_le_last(pre, qu);
                        }
                    }
                    assert(pre.is_prefix_of(pre)) by {
                        assert(pre.subrange(0, pre.len() as int) =~= pre);
                    }
                }
                return ;
            }
            let m = self.min_entry_index();
            match m {
                None => {
                    // The queue is empty: nothing can cross this candidate off.
                    let p = nextp as u64;
                    let ghost entries0 = self.sieve@;
                    proof {
                        lemma_candidate_prime(entries0, pre, nextp as int);
                        lemma_square_fits_u128(p);
                    }
                    let c2 = (p as u128) * (p as u128);
                    self.insert(p, c2);
                    self.primes.push(p);
                    proof {
                        lemma_emit(
                            entries0,
                            pre,
                            nextp as int,
                            self.wheel.value(),
                            p,
                            SieveEntry { composite: c2, factor: p },
                        );
                    }
                    return ;
                },
                Some(i) => {
                    let e = self.sieve[i];
                    if e.composite < nextp {
                        // Stale entry: advance it past the composites the
                        // wheel has already left behind.
                        let ghost entries0 = self.sieve@;
                        let c2 = e.composite + 2 * (e.factor as u128);
                        let e2 = SieveEntry { composite: c2, factor: e.factor };
                        self.sieve[i] = e2;
                        proof {
                            lemma_advance_entry(
                                entries0,
                                pre,
                                nextp as int,
                                nextp as int,
                                i as int,
                                e2,
                            );
                            lemma_heap_debt_update(entries0, nextp as int, i as int, e2);
                            assert(entries0[i as int] == e);
                            assert(entry_debt(e, nextp as int) == (nextp as int) + 2 * (
                            e.factor as int) - (e.composite as int));
                            assert(entry_debt(e2, nextp as int) == (nextp as int) - (
                            e.composite as int));
                            assert(self.sieve@ == entries0.update(i as int, e2));
                            assert(heap_debt(self.sieve@, nextp as int) < heap_debt(
                                entries0,
                                nextp as int,
                            ));
                            lemma_heap_debt_nonneg(self.sieve@, nextp as int);
                        }
                    } else if e.composite == nextp {
                        // The candidate is crossed off: advance the entry
                        // and move the wheel to the next candidate.
                        let ghost entries0 = self.sieve@;
                        let ghost cand0 = nextp as int;
                        let c2 = e.composite + 2 * (e.factor as u128);
                        let e2 = SieveEntry { composite: c2, factor: e.factor };
                        self.sieve[i] = e2;
                        proof {
                            // The matched candidate is composite: its
                            // entry's factor divides it and is smaller.
                            assert(!is_prime_spec(cand0)) by {
                                let f = e.factor as int;
                                assert(cand0 % f == 0);
                                assert(f < cand0) by (nonlinear_arith)
                                    requires
                                        f * f <= cand0,
                                        f >= 7,
                                ;
                            }
                        }
                        nextp = self.wheel.next();
                        proof {
                            lemma_advance_entry(
                                entries0,
                                pre,
                                cand0,
                                nextp as int,
                                i as int,
                                e2,
                            );
                            assert forall|p2: u64|
                                is_prime_spec(p2 as int) && (p2 as int) < (nextp as int)
                                implies pre.contains(p2) by {
                                if (p2 as int) > cand0 {
                                    assert(!coprime30(p2 as int));
                                    lemma_noncoprime30_composite(p2 as int);
                                }
                            }
                            assert(cand0 < nextp as int);
                            lemma_heap_debt_nonneg(self.sieve@, nextp as int);
                        }
                    } else {
                        // nextp is prime!
                        let p = nextp as u64;
                        let ghost entries0 = self.sieve@;
                        proof {
                            assert forall|k: int|
                                0 <= k < entries0.len() implies (#[trigger] entries0[k]).composite
                                as int > nextp as int by {
                                assert(entries0[k].composite >= e.composite);
                            }
                            lemma_candidate_prime(entries0, pre, nextp as int);
                            lemma_square_fits_u128(p);
                        }
                        let c2 = (p as u128) * (p as u128);
                        self.insert(p, c2);
                        self.primes.push(p);
                        proof {
                            lemma_emit(
                                entries0,
                                pre,
                                nextp as int,
                                self.wheel.value(),
                                p,
                                SieveEntry { composite: c2, factor: p },
                            );
                        }
                        return ;
                    }
                },
            }
        }
    }

    /// Return all primes found so far as a slice
    fn list(&self) -> (r: &[u64]) {
        self.primes.as_slice()
    }
}

} // verus!
