use primesocket_core::sieve::sieve_segment;

/// Test the sieve_segment function with a known range and small primes.
#[test]
fn test_sieve_segment() {
    let primes = vec![2, 3, 5, 7];
    let result = sieve_segment(10, 30, primes);

    assert_eq!(result, vec![11, 13, 17, 19, 23, 29]);
}

/// Test sieve_segment with a range that contains no primes.
#[test]
fn test_sieve_segment_no_primes() {
    let primes = vec![2, 3, 5, 7];
    let result = sieve_segment(4, 8, primes);

    assert_eq!(result, vec![5, 7]);
}

/// Test sieve_segment with a small range containing only one prime.
#[test]
fn test_sieve_segment_single_prime() {
    let primes = vec![2, 3, 5, 7];
    let result = sieve_segment(17, 17, primes);

    assert_eq!(result, vec![17]);
}

/// Test sieve_segment with a range where the primes are already in the list.
#[test]
fn test_sieve_segment_with_known_primes() {
    let primes = vec![2, 3, 5, 7, 11, 13];
    let result = sieve_segment(10, 20, primes);

    assert_eq!(result, vec![11, 13, 17, 19]);
}

/// Test sieve_segment with an empty range.
#[test]
fn test_sieve_segment_empty_range() {
    let primes = vec![2, 3, 5, 7];
    let result = sieve_segment(30, 29, primes);

    assert_eq!(result, Vec::<u32>::new());
}

/// An inverted range at the top of the value space is still just empty.
#[test]
fn test_sieve_segment_empty_range_at_extreme() {
    let result = sieve_segment(u32::MAX, u32::MAX - 1, vec![]);
    assert_eq!(result, Vec::<u32>::new());
}

/// A divisor never marks itself: the segment holding only 2 keeps 2.
#[test]
fn test_sieve_segment_keeps_divisor_itself() {
    let result = sieve_segment(2, 2, vec![2]);
    assert_eq!(result, vec![2]);
}

/// A larger segment checked against an independently known answer.
#[test]
fn test_sieve_segment_first_segment() {
    let result = sieve_segment(2, 50, vec![2, 3, 5, 7]);
    assert_eq!(result, vec![2, 3, 5, 7, 11, 13, 17, 19, 23, 29, 31, 37, 41, 43, 47]);
}
