use primes::{factors, factors_uniq, is_prime, totient, PrimeSet, PrimeSetBasics, Sieve,
    TrialDivision};

#[test]
fn test_sieve_basics() {
    let mut pset = Sieve::new();
    let ln = pset.list().len();
    pset.expand();
    assert_eq!(pset.list().len(), ln + 1);
    assert_eq!(pset.list()[ln], 7);
}

#[test]
fn test_engine_equivalence_iterate() {
    let mut td = TrialDivision::new();
    let mut sv = Sieve::new();
    let mut td_it = td.iter();
    let mut sv_it = sv.iter();
    for _ in 0..200 {
        let a = td_it.next(&mut td);
        let b = sv_it.next(&mut sv);
        assert_eq!(a, b);
        assert!(a.is_some());
    }
}

#[test]
fn test_engine_equivalence_find() {
    let mut td = TrialDivision::new();
    let mut sv = Sieve::new();
    for n in [0u64, 1, 2, 3, 10, 97, 100, 541, 1000, 1009, 7919] {
        assert_eq!(td.find(n), sv.find(n));
    }
}

#[test]
fn test_engine_equivalence_is_prime() {
    let mut td = TrialDivision::new();
    let mut sv = Sieve::new();
    for n in 0u64..2000 {
        let a = td.is_prime(n);
        let b = sv.is_prime(n);
        assert_eq!(a, b);
        assert_eq!(a, is_prime(n));
    }
}

#[test]
fn test_monotonic_cache() {
    let mut pset = Sieve::new();
    for _ in 0..300 {
        pset.expand();
    }
    let lst = pset.list();
    for i in 1..lst.len() {
        assert!(lst[i - 1] < lst[i]);
    }
}

#[test]
fn test_find_idempotent() {
    let mut pset = Sieve::new();
    let (ix, p) = pset.find(1000);
    assert_eq!((ix, p), (168, 1009));
    assert_eq!(pset.find(p), (ix, p));
    let q = pset.find(p).1;
    assert_eq!(pset.find(q), (ix, p));
}

#[test]
fn test_find_vec_edges() {
    let pset = TrialDivision::new();
    // A fresh cache holds [2, 3].
    assert_eq!(pset.find_vec(0), Some((0, 2)));
    assert_eq!(pset.find_vec(1), Some((0, 2)));
    assert_eq!(pset.find_vec(2), Some((0, 2)));
    assert_eq!(pset.find_vec(3), Some((1, 3)));
    assert_eq!(pset.find_vec(4), None);
}

#[test]
fn test_get() {
    let mut pset = TrialDivision::new();
    assert_eq!(pset.get(0), 2);
    assert_eq!(pset.get(5), 13);
    assert_eq!(pset.get(168), 1009);
    let mut sv = Sieve::new();
    assert_eq!(sv.get(168), 1009);
}

#[test]
fn test_len_is_empty() {
    let td = TrialDivision::new();
    assert_eq!(td.len(), 2);
    assert!(!td.is_empty());
    let sv = Sieve::new();
    assert_eq!(sv.len(), 3);
    assert!(!sv.is_empty());
}

#[test]
fn test_index() {
    let mut pset = TrialDivision::new();
    pset.expand();
    assert_eq!(pset.index(0), 2);
    assert_eq!(pset.index(2), 5);
}

#[test]
fn test_generator() {
    let mut pset = TrialDivision::new();
    let (_ix, p) = pset.find(10);
    assert_eq!(p, 11);
    // A generator yields only primes not yet found.
    let mut gen = pset.generator();
    assert_eq!(gen.next(&mut pset), Some(13));
    assert_eq!(gen.next(&mut pset), Some(17));
}

#[test]
fn test_iter_vec() {
    let mut pset = TrialDivision::new();
    // A non-expanding iterator replays the cache and then stops.
    let mut it = pset.iter_vec();
    assert_eq!(it.next(&mut pset), Some(2));
    assert_eq!(it.next(&mut pset), Some(3));
    assert_eq!(it.next(&mut pset), None);
}

#[test]
fn test_iter_restartable() {
    let mut pset = TrialDivision::new();
    let mut it = pset.iter();
    for expected in [2u64, 3, 5, 7, 11] {
        assert_eq!(it.next(&mut pset), Some(expected));
    }
    // A fresh iterator replays the cached primes from the start.
    let mut it2 = pset.iter();
    for expected in [2u64, 3, 5, 7, 11] {
        assert_eq!(it2.next(&mut pset), Some(expected));
    }
}

#[test]
fn test_prime_factors_edges() {
    let mut pset = TrialDivision::new();
    assert_eq!(pset.prime_factors(0), Vec::<u64>::new());
    assert_eq!(pset.prime_factors(1), Vec::<u64>::new());
    assert_eq!(pset.prime_factors(2), vec![2]);
    assert_eq!(pset.prime_factors(1009), vec![1009]);
    assert_eq!(factors(0), Vec::<u64>::new());
    assert_eq!(factors_uniq(0), Vec::<u64>::new());
    assert_eq!(factors_uniq(12), vec![2, 3]);
    assert_eq!(factors_uniq(1009), vec![1009]);
}

#[test]
fn test_factorization_roundtrip() {
    let mut pset = Sieve::new();
    for n in 2u64..500 {
        let fs = pset.prime_factors(n);
        let mut prod = 1u64;
        for &f in fs.iter() {
            assert!(is_prime(f));
            prod *= f;
        }
        assert_eq!(prod, n);
        assert_eq!(fs, factors(n));
        let mut deduped = fs.clone();
        deduped.dedup();
        assert_eq!(factors_uniq(n), deduped);
    }
}

#[test]
fn test_totient() {
    assert_eq!(totient(0), 0);
    assert_eq!(totient(1), 1);
    assert_eq!(totient(2), 1);
    assert_eq!(totient(7), 6);
    assert_eq!(totient(9), 6);
    assert_eq!(totient(10), 4);
    assert_eq!(totient(12), 4);
    assert_eq!(totient(100), 40);
}
