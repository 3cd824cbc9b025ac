use fractran::math::first_n_primes;

#[test]
fn first_n_primes_above_6() {
    assert_eq!(
        first_n_primes(12),
        vec![2, 3, 5, 7, 11, 13, 17, 19, 23, 29, 31, 37]
    );
}

#[test]
fn first_n_primes_below_6() {
    assert_eq!(first_n_primes(5), vec![2, 3, 5, 7, 11]);

    assert_eq!(first_n_primes(1), vec![2]);

    assert_eq!(first_n_primes(0), vec![]);
}

#[test]
fn it_works() {
    assert_eq!(2 + 2, 4);
}

#[test]
fn first_n_primes_large_count() {
    let primes = first_n_primes(1000);
    assert_eq!(primes.len(), 1000);
    assert_eq!(primes[0], 2);
    assert_eq!(primes[999], 7919);
}
