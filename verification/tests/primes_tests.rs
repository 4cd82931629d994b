use primorial_of_a_number::primes::{optimized_sieve_of_eratosthenes, sqrt_binary_search};

fn naive_primes(n: usize) -> Vec<usize> {
    (2..=n).filter(|&p| (2..p).take_while(|d| d * d <= p).all(|d| p % d != 0)).collect()
}

#[test]
fn sqrt_of_small_numbers() {
    let expected = [0, 1, 1, 1, 2, 2, 2, 2, 2, 3, 3, 3, 3, 3, 3, 3, 4];
    for (n, r) in expected.iter().enumerate() {
        assert_eq!(sqrt_binary_search(n), *r, "n = {}", n);
    }
}

#[test]
fn sqrt_of_perfect_squares_and_neighbours() {
    for r in [5usize, 31, 100, 1000, 65535, 1_000_000] {
        assert_eq!(sqrt_binary_search(r * r), r);
        assert_eq!(sqrt_binary_search(r * r - 1), r - 1);
        assert_eq!(sqrt_binary_search(r * r + 2 * r), r);
    }
}

#[test]
fn sqrt_of_the_largest_usize() {
    let r = sqrt_binary_search(usize::MAX);
    assert!((r as u128) * (r as u128) <= usize::MAX as u128);
    assert!((r as u128 + 1) * (r as u128 + 1) > usize::MAX as u128);
}

#[test]
fn sieve_of_zero_and_one() {
    assert_eq!(optimized_sieve_of_eratosthenes(0), vec![1]);
    assert_eq!(optimized_sieve_of_eratosthenes(1), vec![2]);
}

#[test]
fn sieve_of_small_limits() {
    assert_eq!(optimized_sieve_of_eratosthenes(2), vec![2]);
    assert_eq!(optimized_sieve_of_eratosthenes(3), vec![2, 3]);
    assert_eq!(optimized_sieve_of_eratosthenes(10), vec![2, 3, 5, 7]);
    assert_eq!(optimized_sieve_of_eratosthenes(16), vec![2, 3, 5, 7, 11, 13]);
    assert_eq!(optimized_sieve_of_eratosthenes(30), vec![2, 3, 5, 7, 11, 13, 17, 19, 23, 29]);
}

#[test]
fn sieve_counts() {
    assert_eq!(optimized_sieve_of_eratosthenes(100).len(), 25);
    assert_eq!(optimized_sieve_of_eratosthenes(1000).len(), 168);
}

#[test]
fn sieve_agrees_with_trial_division() {
    for n in 2..400 {
        assert_eq!(optimized_sieve_of_eratosthenes(n), naive_primes(n), "n = {}", n);
    }
}

#[test]
fn sieve_of_squares_of_primes_includes_them() {
    // limits that are squares of odd primes exercise the last crossing step
    assert_eq!(*optimized_sieve_of_eratosthenes(49).last().unwrap(), 47);
    assert_eq!(*optimized_sieve_of_eratosthenes(121).last().unwrap(), 113);
    assert!(!optimized_sieve_of_eratosthenes(121).contains(&121));
}
