use fractran::frac::{Fraction, FractranNat};
use fractran::primebasis::PrimeBasis;
use fractran::program::Program;

/// Given two vectors of numerators and denominators initializes the program.
fn make_program(nums: Vec<u64>, denoms: Vec<u64>) -> Program<PrimeBasis> {
    let mut prog: Vec<Fraction<PrimeBasis>> = vec![];
    for (num, denom) in nums.into_iter().zip(denoms) {
        prog.push(Fraction::new(
            PrimeBasis::try_new(num).unwrap(),
            PrimeBasis::try_new(denom).unwrap(),
        ));
    }
    Program::new(prog)
}

#[test]
fn test_basic_program() {
    let div_then_stop = Program::new(vec![Fraction::new(1_u64, 2_u64)]);
    let mut iter = div_then_stop.lazy_exec(4_u64);
    assert_eq!(iter.next(), Some(2_u64));
    assert_eq!(iter.next(), Some(1_u64));
    assert_eq!(iter.next(), None);
    let div_then_stop = Program::new(vec![Fraction::new(1_u64, 2_u64)]);
    assert_eq!(div_then_stop.exec_to_completion(4_u64), 1_u64);
}

#[test]
fn test_multiply() {
    let mult_pb = make_program(vec![455, 11, 1, 3, 11, 1], vec![33, 13, 11, 7, 2, 3]);

    // here, we input 2^3 * 3^2, so we should get 5^6
    assert_eq!(
        mult_pb
            .exec_to_completion(PrimeBasis::try_new(72).unwrap())
            .value(),
        5_u64.pow(6)
    );
}

#[test]
fn test_readme_primes() {
    let nums: Vec<u64> = vec![17, 78, 19, 23, 29,
                              77, 95, 77, 1, 11,
                              13, 15, 15, 55];
    let denoms: Vec<u64> = vec![91, 85, 51, 38, 33,
                                29, 23, 19, 17, 13,
                                11, 14, 2, 1];
    let fracs: Vec<Fraction<u64>> = nums.into_iter()
                                        .zip(denoms)
                                        .map(|(num, denom)| Fraction::new(num, denom))
                                        .collect();

    let prog = Program::new(fracs);
    let mut primes = vec![];
    let mut ev = prog.lazy_exec(2);
    let mut steps: u32 = 0;
    while steps < 2000 {
        match ev.next() {
            Some(out) => {
                if out.is_power_of_two() {
                    primes.push(out.trailing_zeros());
                }
            }
            None => break,
        }
        steps += 1;
    }
    assert_eq!(primes, vec![2, 3, 5, 7]);
}

#[test]
fn test_readme_primes_2e() {
    let nums: Vec<u64> = vec![17, 78, 19, 23, 29,
                              77, 95, 77, 1, 11,
                              13, 15, 15, 55];
    let denoms: Vec<u64> = vec![91, 85, 51, 38, 33,
                                29, 23, 19, 17, 13,
                                11, 14, 2, 1];
    let fracs: Vec<Fraction<PrimeBasis>> = nums.into_iter()
                                               .zip(denoms)
                                               .map(|(num, denom)| Fraction::new(
                                                   PrimeBasis::try_new(num).unwrap(),
                                                   PrimeBasis::try_new(denom).unwrap(),
                                               ))
                                               .collect();

    let prog = Program::new(fracs);
    let mut primes = vec![];
    let mut ev = prog.lazy_exec(PrimeBasis::try_new(2).unwrap());
    let mut steps: u32 = 0;
    while steps < 100_000 {
        match ev.next() {
            Some(out_pb) => {
                if out_pb.exps[1..].iter().all(|&exp| exp == 0) {
                    primes.push(out_pb.exps[0]);
                }
            }
            None => break,
        }
        steps += 1;
    }
    assert_eq!(primes, vec![2, 3, 5, 7, 11, 13, 17, 19, 23, 29, 31, 37]);
}

#[test]
fn halting_scenario() {
    // a program with the single fraction 1/2 run from 4 emits [2, 1], halts,
    // and stays halted
    let prog = Program::new(vec![Fraction::new(1_u64, 2_u64)]);
    let mut ev = prog.lazy_exec(4_u64);
    let mut emitted: Vec<u64> = vec![];
    while let Some(out) = ev.next() {
        emitted.push(out);
    }
    assert_eq!(emitted, vec![2, 1]);
    assert_eq!(ev.next(), None);
    let prog = Program::new(vec![Fraction::new(1_u64, 2_u64)]);
    assert_eq!(prog.exec_to_completion(4_u64), 1_u64);
}

#[test]
fn cross_representation_equivalence() {
    // the same program, run over native integers and over the
    // factorization-basis representation, emits the same native values
    let nums: Vec<u64> = vec![17, 78, 19, 23, 29,
                              77, 95, 77, 1, 11,
                              13, 15, 15, 55];
    let denoms: Vec<u64> = vec![91, 85, 51, 38, 33,
                                29, 23, 19, 17, 13,
                                11, 14, 2, 1];
    let native: Vec<Fraction<u64>> = nums.iter()
                                         .zip(denoms.iter())
                                         .map(|(&n, &d)| Fraction::new(n, d))
                                         .collect();
    let basis: Vec<Fraction<PrimeBasis>> = nums.iter()
                                               .zip(denoms.iter())
                                               .map(|(&n, &d)| Fraction::new(
                                                   PrimeBasis::try_new(n).unwrap(),
                                                   PrimeBasis::try_new(d).unwrap(),
                                               ))
                                               .collect();
    let mut ev_native = Program::new(native).lazy_exec(2_u64);
    let mut ev_basis = Program::new(basis).lazy_exec(PrimeBasis::try_new(2).unwrap());
    for _ in 0..1000 {
        let a = ev_native.next();
        let b = ev_basis.next();
        match (a, b) {
            (Some(x), Some(y)) => assert_eq!(x, y.value()),
            (None, None) => break,
            _ => panic!("the two runs diverged"),
        }
    }
}
