//! A representation of a fraction used in Fractran program execution.

use vstd::prelude::*;
use vstd::arithmetic::div_mod::lemma_fundamental_div_mod;
use crate::primebasis::Divides;

verus! {

/// Wrapper trait for the various things that numbers in Fractran programs
/// need to do. `PrimeBasis` satisfies this, as does `u64`. Every operation is
/// specified over the positive integer the representation stands for.
pub trait FractranNat: Divides {
    /// Whether the representation can hold the product of the two values
    /// without overflowing its storage.
    spec fn mul_ok(&self, other: &Self) -> bool;

    /// Duplicates the value: value semantics, no shared mutable aliasing.
    fn dup(&self) -> (r: Self)
        requires
            self.wf(),
        ensures
            r.wf(),
            r.val() == self.val(),
    ;

    /// The product of the two represented numbers.
    fn mul(&self, other: &Self) -> (r: Self)
        requires
            self.wf(),
            other.wf(),
            self.mul_ok(other),
        ensures
            r.wf(),
            r.val() == self.val() * other.val(),
    ;

    /// The quotient of the two represented numbers; the divisor must divide
    /// exactly, which callers establish through `divides` first.
    fn div(&self, other: &Self) -> (r: Self)
        requires
            self.wf(),
            other.wf(),
            self.val() % other.val() == 0,
        ensures
            r.wf(),
            r.val() == self.val() / other.val(),
    ;

    /// Conversion to a native unsigned integer, when the value fits it.
    fn to_native(&self) -> (r: u64)
        requires
            self.wf(),
            self.val() <= u64::MAX,
        ensures
            r as nat == self.val(),
    ;
}

impl Divides for u64 {
    /// A native integer stands for itself.
    open spec fn val(&self) -> nat {
        *self as nat
    }

    /// Fractran numbers are positive.
    open spec fn wf(&self) -> bool {
        *self >= 1
    }

    proof fn lemma_wf_positive(&self) {
    }

    /// Returns `true` if `rhs` is a multiple of `self`: the remainder test.
    fn divides(&self, rhs: &u64) -> (r: bool) {
        *rhs % *self == 0
    }
}

impl FractranNat for u64 {
    /// The product fits the native integer type.
    open spec fn mul_ok(&self, other: &u64) -> bool {
        *self as nat * *other as nat <= u64::MAX as nat
    }

    fn dup(&self) -> (r: u64) {
        *self
    }

    fn mul(&self, other: &u64) -> (r: u64) {
        proof {
            assert(*self as nat * *other as nat >= 1) by (nonlinear_arith)
                requires *self >= 1, *other >= 1;
        }
        *self * *other
    }

    fn div(&self, other: &u64) -> (r: u64) {
        proof {
            lemma_fundamental_div_mod(*self as int, *other as int);
            assert(*self as int / *other as int >= 1) by (nonlinear_arith)
                requires
                    *self as int == *other as int * (*self as int / *other as int),
                    *self >= 1,
                    *other >= 1;
        }
        *self / *other
    }

    fn to_native(&self) -> (r: u64) {
        *self
    }
}

/// The result of executing an instruction step in Fractran. `Changed` means
/// that the step's division was exact and was taken, and `Unchanged` means it
/// was not. Note that the result of a step can be `Changed` and still equal
/// the original state, if the fraction used was 1/1.
#[derive(Debug, PartialEq, Eq)]
pub enum StepResult<T: FractranNat> {
    /// The same state as before, without any multiplication.
    Unchanged(T),
    /// The product of the former state and the fraction at this step.
    Changed(T),
}

/// A fraction in Fractran, with a nonzero numerator and denominator.
#[derive(Debug)]
pub struct Fraction<T: FractranNat> {
    /// The fraction numerator: must be nonzero.
    num: T,
    /// The fraction denominator: must be nonzero.
    denom: T,
}

impl<T: FractranNat> Fraction<T> {
    /// Both sides are well-formed, hence positive.
    pub closed spec fn wf(&self) -> bool {
        self.num.wf() && self.denom.wf()
    }

    /// The numerator's value.
    pub closed spec fn num_val(&self) -> nat {
        self.num.val()
    }

    /// The denominator's value.
    pub closed spec fn denom_val(&self) -> nat {
        self.denom.val()
    }

    /// The numerator's representation.
    pub closed spec fn spec_num(&self) -> T {
        self.num
    }

    /// Creates a new `Fraction` with the given numerator and denominator.
    /// A zero on either side is excluded by precondition: well-formed
    /// representations stand for positive integers.
    pub fn new(num: T, denom: T) -> (r: Fraction<T>)
        requires
            num.wf(),
            denom.wf(),
        ensures
            r.wf(),
            r.num_val() == num.val(),
            r.denom_val() == denom.val(),
            r.spec_num() == num,
    {
        Fraction { num, denom }
    }

    /// Computes the only operation Fractran has: for this fraction `f` and
    /// some input `n`, returns `StepResult::Changed(nf)` if `nf` is integral
    /// and `StepResult::Unchanged(n)` otherwise. Note that, for example, 1/1
    /// doesn't change the actual state, but it will still return `Changed`
    /// because the multiplication was performed.
    pub fn exec(&self, input: &T) -> (r: StepResult<T>)
        requires
            self.wf(),
            input.wf(),
            input.mul_ok(&self.spec_num()),
        ensures
            ({
                let p = input.val() * self.num_val();
                if p % self.denom_val() == 0 {
                    r matches StepResult::Changed(t) && t.wf() && t.val() == p / self.denom_val()
                } else {
                    r matches StepResult::Unchanged(t) && t.wf() && t.val() == input.val()
                }
            }),
    {
        let new_num = input.mul(&self.num);
        if self.denom.divides(&new_num) {
            StepResult::Changed(new_num.div(&self.denom))
        } else {
            StepResult::Unchanged(input.dup())
        }
    }
}

} // verus!
