use fractran::frac::FractranNat;
use fractran::primebasis::{Divides, Error, PrimeBasis};

/// Constructor that panics instead of returning a result.
fn new(num: u64) -> PrimeBasis {
    PrimeBasis::try_new(num).unwrap()
}

#[test]
fn test_basis_nums() {
    // 200 = 8 * 25 = 2^3 * 5^2
    assert_eq!(new(200).exps, vec![3, 0, 2]);
    // 1 has no values
    assert_eq!(new(1).exps, vec![]);
    // 0 has error
    assert_eq!(PrimeBasis::try_new(0).unwrap_err(), Error::NumIsZero);
}

#[test]
fn test_tryfrom_u64() {
    let nums: Vec<u64> = vec![1, 2, 3, 5, 10, 20, 60, 2520, 70000];
    for num in nums {
        let converted: u64 = PrimeBasis::try_new(num).unwrap().value();
        assert_eq!(num, converted);
    }
}

#[test]
fn test_into_u64() {
    let nums: Vec<u64> = vec![1, 2, 3, 5, 10, 20, 60, 2520, 70000];
    for num in nums {
        let converted: u64 = new(num).value();
        assert_eq!(num, converted);
    }
}

#[test]
fn test_mul() {
    let nums1: Vec<u64> = vec![1, 2, 5, 8, 100, 256, 2520];
    let nums2: Vec<u64> = vec![1, 5, 7, 11, 102, 353, 1000];
    for num1 in &nums1 {
        for num2 in &nums2 {
            let pb1 = PrimeBasis::try_new(*num1).unwrap();
            let pb2 = PrimeBasis::try_new(*num2).unwrap();
            let ans: u64 = pb1.mul(&pb2).value();
            assert_eq!(ans, num1 * num2);
        }
    }
}

#[test]
fn test_divides() {
    let help_div = |a, b| {
        let pb1 = new(a);
        let pb2 = new(b);
        pb1.divides(&pb2)
    };
    assert_eq!(help_div(7, 28), true);
    assert_eq!(help_div(32, 128), true);
    assert_eq!(help_div(40, 40), true);
    assert_eq!(help_div(1, 28), true);
    assert_eq!(help_div(1, 1), true);
    assert_eq!(help_div(70, 7), false);
    assert_eq!(help_div(2, 7), false);
    assert_eq!(help_div(100, 250), false);
}

#[test]
fn overflow_boundary() {
    // 7919 is the 1000th prime and still representable; 7927 is the next
    // prime, outside the register bank.
    assert_eq!(new(7919).value(), 7919);
    assert_eq!(
        PrimeBasis::try_new(7927).unwrap_err(),
        Error::RegisterOverflow(7927)
    );
    // a composite with one factor beyond the registers also overflows
    assert_eq!(
        PrimeBasis::try_new(2 * 7927).unwrap_err(),
        Error::RegisterOverflow(2 * 7927)
    );
    // 2^64 - 1 = 3 * 5 * 17 * 257 * 641 * 65537 * 6700417
    assert_eq!(
        PrimeBasis::try_new(u64::MAX).unwrap_err(),
        Error::RegisterOverflow(u64::MAX)
    );
    assert_eq!(PrimeBasis::try_new(0).unwrap_err(), Error::NumIsZero);
}

#[test]
fn round_trip() {
    for n in 1..500u64 {
        assert_eq!(new(n).value(), n);
    }
}

#[test]
fn multiplicative_homomorphism() {
    for a in 1..40u64 {
        for b in 1..40u64 {
            assert_eq!(new(a).mul(&new(b)).value(), a * b);
        }
    }
}

#[test]
fn divisibility_consistency() {
    for a in 1..60u64 {
        for b in 1..60u64 {
            assert_eq!(new(a).divides(&new(b)), b % a == 0);
        }
    }
}

#[test]
fn division_of_exact_multiples() {
    let a = new(250);
    let b = new(50);
    assert_eq!(a.div(&b).value(), 5);
    assert_eq!(new(28).div(&new(7)).value(), 4);
}

#[test]
fn render_products() {
    // 200 = 2^3 * 5^2
    assert_eq!(new(200).render(), "PrimeBasis(2^3 \u{2715} 5^2)");
    assert_eq!(new(1).render(), "PrimeBasis(1)");
    assert_eq!(new(7919).render(), "PrimeBasis(7919^1)");
    assert_eq!(new(12).render(), "PrimeBasis(2^2 \u{2715} 3^1)");
}

#[test]
fn register_primes_are_available() {
    assert!(fractran::primebasis::register_primes_available());
}

#[test]
fn primes_available_for_small_counts() {
    assert!(fractran::primebasis::primes_available(0));
    assert!(fractran::primebasis::primes_available(12));
    assert!(fractran::primebasis::primes_available(1000));
}
