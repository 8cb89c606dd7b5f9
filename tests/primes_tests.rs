use primes::batch::Batch;
use primes::{Primes, BATCH_SIZE};

fn trial_division(n: u64) -> bool {
    if n < 2 {
        return false;
    }
    let mut d: u64 = 2;
    while d * d <= n {
        if n % d == 0 {
            return false;
        }
        d += 1;
    }
    true
}

fn first_primes(count: usize) -> Vec<u64> {
    let mut out = Vec::new();
    let mut n: u64 = 2;
    while out.len() < count {
        if trial_division(n) {
            out.push(n);
        }
        n += 1;
    }
    out
}

#[test]
fn test_working() {
    let mut p = Primes::with_batch_size(BATCH_SIZE);
    assert!(p.is_prime(2));
    assert!(p.is_prime(3));
    assert!(!p.is_prime(4));
    assert!(p.is_prime(5));
    assert!(!p.is_prime(6));
    assert!(p.is_prime(7));
    assert!(p.is_prime(1299709));
    assert!(!p.is_prime(1299708));
}

#[test]
fn test_file() {
    let mut p = Primes::with_batch_size(BATCH_SIZE);

    let primes_vec: Vec<u64> = first_primes(10000);
    assert_eq!(primes_vec[9999], 104729);

    assert_eq!(primes_vec, p.iter().take(primes_vec.len()))
}

#[test]
fn zero_and_one_are_not_prime() {
    let mut p = Primes::with_batch_size(16);
    assert!(!p.is_prime(0));
    assert!(!p.is_prime(1));
    let mut q = Primes::new();
    assert!(!q.is_prime(0));
    assert!(!q.is_prime(1));
}

#[test]
fn first_five_from_the_sequence() {
    let mut p = Primes::new();
    let mut it = p.iter();
    assert_eq!(it.next(), Some(2));
    assert_eq!(it.next(), Some(3));
    assert_eq!(it.next(), Some(5));
    assert_eq!(it.next(), Some(7));
    assert_eq!(it.next(), Some(11));
}

#[test]
fn sequence_restarts_per_cursor() {
    let mut p = Primes::with_batch_size(4);
    assert_eq!(p.iter().take(3), vec![2, 3, 5]);
    assert_eq!(p.iter().take(4), vec![2, 3, 5, 7]);
}

#[test]
fn sequence_is_strictly_increasing() {
    let mut p = Primes::with_batch_size(7);
    let got = p.iter().take(500);
    assert_eq!(got.len(), 500);
    for w in got.windows(2) {
        assert!(w[0] < w[1]);
    }
    assert_eq!(got, first_primes(500));
}

#[test]
fn large_query_with_default_width() {
    let mut p = Primes::new();
    assert!(p.is_prime(1299709));
    assert!(!p.is_prime(1299708));
    assert_eq!(p.batch.current, 0);
}

#[test]
fn large_query_across_many_windows() {
    let mut p = Primes::with_batch_size(1000);
    assert!(p.is_prime(1299709));
    assert!(!p.is_prime(1299708));
    assert_eq!(p.batch.current, 1299);
    assert_eq!(p.primes_ordered[99999], 1299709);
    assert_eq!(p.primes_ordered.len(), 100021);
}

#[test]
fn small_widths_stay_correct_across_boundaries() {
    for width in [2u64, 3, 4, 5, 6, 7, 10, 11, 64] {
        let mut p = Primes::with_batch_size(width);
        for n in 0..600u64 {
            assert_eq!(p.is_prime(n), trial_division(n), "width {} value {}", width, n);
        }
    }
}

#[test]
fn smallest_width_sequence() {
    let mut p = Primes::with_batch_size(2);
    assert!(p.primes_ordered.is_empty());
    assert_eq!(p.iter().take(100), first_primes(100));
}

#[test]
fn repeated_query_does_not_sieve_again() {
    let mut p = Primes::with_batch_size(100);
    let first = p.is_prime(1009);
    let len = p.primes_ordered.len();
    let current = p.batch.current;
    let second = p.is_prime(1009);
    assert!(first);
    assert_eq!(first, second);
    assert_eq!(p.primes_ordered.len(), len);
    assert_eq!(p.primes_found.len(), len);
    assert_eq!(p.batch.current, current);
    assert_eq!(current, 10);
}

#[test]
fn query_at_window_end_sieves_next_window() {
    let mut p = Primes::with_batch_size(11);
    assert_eq!(p.batch.current, 0);
    assert!(!p.is_prime(11 * 11));
    assert_eq!(p.batch.current, 11);
    let mut q = Primes::with_batch_size(11);
    assert!(q.is_prime(11));
    assert_eq!(q.batch.current, 1);
    assert!(!q.is_prime(10));
    assert_eq!(q.batch.current, 1);
}

#[test]
fn membership_set_reflects_sieved_range() {
    let mut p = Primes::with_batch_size(100);
    assert!(!p.is_prime(1000));
    let set = p.primes_found_set();
    for v in 0..1200u64 {
        assert_eq!(set.contains(&v), v < 1100 && trial_division(v), "value {}", v);
    }
    assert_eq!(set.len(), p.primes_ordered.len());
    assert_eq!(set.len(), 184);
}

#[test]
fn store_matches_trial_division() {
    let mut p = Primes::with_batch_size(50);
    p.populate_next_batch();
    p.populate_next_batch();
    let store = p.primes_ordered.clone();
    assert_eq!(store, first_primes(store.len()));
    for (j, &v) in store.iter().enumerate() {
        for &q in &store[..j] {
            assert_ne!(v % q, 0);
        }
    }
    assert_eq!(*store.last().unwrap(), 149);
}

#[test]
fn first_window_and_next_window() {
    let mut p = Primes::with_batch_size(10);
    assert_eq!(p.primes_ordered, vec![2, 3, 5, 7]);
    assert_eq!(p.batch.offset, 0);
    p.populate_next_batch();
    assert_eq!(p.primes_ordered, vec![2, 3, 5, 7, 11, 13, 17, 19]);
    assert_eq!(p.batch.current, 1);
    assert_eq!(p.batch.offset, 10);
    assert_eq!(p.batch.size, 10);
    assert_eq!(p.inner_slice.len(), 10);
}

#[test]
fn default_width() {
    let p = Primes::new();
    assert_eq!(BATCH_SIZE, 10 * 1048576);
    assert_eq!(p.batch.size, BATCH_SIZE);
    assert_eq!(p.primes_ordered.len(), p.primes_found.len());
    assert_eq!(p.primes_ordered.len(), 694716);
}

#[test]
fn batch_advances_by_one_window() {
    let mut b = Batch::new(7);
    assert_eq!((b.current, b.size, b.offset), (0, 7, 0));
    b.advance();
    assert_eq!((b.current, b.offset), (1, 7));
    b.advance();
    assert_eq!((b.current, b.offset), (2, 14));
    b.current = 5;
    b.calculate_offset();
    assert_eq!(b.offset, 35);
}

#[test]
fn cursor_inside_store_sieves_nothing() {
    let mut p = Primes::with_batch_size(10);
    {
        let mut it = p.iter();
        assert_eq!(it.next(), Some(2));
        assert_eq!(it.next(), Some(3));
        assert_eq!(it.next(), Some(5));
        assert_eq!(it.next(), Some(7));
        assert_eq!(it.primes.batch.current, 0);
        assert_eq!(it.next(), Some(11));
        assert_eq!(it.primes.batch.current, 1);
    }
    assert_eq!(p.primes_ordered.len(), 8);
}

#[test]
fn cursor_stops_at_first_window_holding_the_prime() {
    let mut p = Primes::with_batch_size(4);
    let mut it = p.iter();
    assert_eq!(it.take(2), vec![2, 3]);
    assert_eq!(it.primes.batch.current, 0);
    assert_eq!(it.next(), Some(5));
    assert_eq!(it.primes.batch.current, 1);
    assert_eq!(it.take(2), vec![7, 11]);
    assert_eq!(it.primes.batch.current, 2);
    assert_eq!(it.current, 5);
}
