use fractran::frac::{Fraction, StepResult};

#[test]
fn test_exec() {
    assert_eq!(
        Fraction::new(1_u64, 2_u64).exec(&2_u64),
        StepResult::Changed(1_u64)
    );
    assert_eq!(
        Fraction::new(1_u64, 2_u64).exec(&1_u64),
        StepResult::Unchanged(1_u64)
    );
    assert_eq!(
        Fraction::new(6_u64, 7_u64).exec(&28_u64),
        StepResult::Changed(24_u64)
    );
}

#[test]
fn step_semantics() {
    assert_eq!(
        Fraction::new(1_u64, 2_u64).exec(&4_u64),
        StepResult::Changed(2_u64)
    );
    assert_eq!(
        Fraction::new(1_u64, 2_u64).exec(&1_u64),
        StepResult::Unchanged(1_u64)
    );
    assert_eq!(
        Fraction::new(6_u64, 7_u64).exec(&28_u64),
        StepResult::Changed(24_u64)
    );
    // a fraction of value one still reports Changed: the path was taken
    assert_eq!(
        Fraction::new(3_u64, 3_u64).exec(&5_u64),
        StepResult::Changed(5_u64)
    );
}
