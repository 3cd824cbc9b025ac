//! Provides a struct to represent a program in Fractran — a list of
//! fractions — and the evaluator that drives repeated stepping over it.

use vstd::prelude::*;
use vstd::pervasive::unreached;
use crate::frac::{Fraction, FractranNat, StepResult};
use crate::primebasis::Divides;

verus! {

/// The abstract view of a fraction list: the pairs of numerator and
/// denominator values, in program order.
pub open spec fn fracs_view<T: FractranNat>(fr: Seq<Fraction<T>>) -> Seq<(nat, nat)> {
    fr.map_values(|f: Fraction<T>| (f.num_val(), f.denom_val()))
}

/// Every fraction in the list is well-formed.
pub open spec fn fracs_wf<T: FractranNat>(fr: Seq<Fraction<T>>) -> bool {
    forall|i: int| 0 <= i < fr.len() ==> (#[trigger] fr[i]).wf()
}

/// Whether a fraction applies to a state: multiplying the state by the
/// numerator and dividing by the denominator stays integral.
pub open spec fn applies(f: (nat, nat), s: nat) -> bool {
    (s * f.0) % f.1 == 0
}

/// One Fractran step on abstract values: the first applying fraction, in
/// list order, rewrites the state; if none applies, the program halts.
pub open spec fn step_state(fr: Seq<(nat, nat)>, s: nat) -> Option<nat>
    decreases fr.len(),
{
    if fr.len() == 0 {
        None
    } else if applies(fr[0], s) {
        Some((s * fr[0].0) / fr[0].1)
    } else {
        step_state(fr.drop_first(), s)
    }
}

/// The abstract state after n steps, stalling once the program halts.
pub open spec fn run_n(fr: Seq<(nat, nat)>, s: nat, n: nat) -> nat
    decreases n,
{
    if n == 0 {
        s
    } else {
        let prev = run_n(fr, s, (n - 1) as nat);
        match step_state(fr, prev) {
            Some(t) => t,
            None => prev,
        }
    }
}

/// The abstract states a run emits, up to a step budget.
pub open spec fn emitted(fr: Seq<(nat, nat)>, s: nat, n: nat) -> Seq<nat>
    decreases n,
{
    if n == 0 {
        Seq::empty()
    } else {
        match step_state(fr, s) {
            None => Seq::empty(),
            Some(t) => seq![t] + emitted(fr, t, (n - 1) as nat),
        }
    }
}

/// The scan from the given state can form every product it reaches: for each
/// fraction at or before the first applying one, the state's representation
/// can hold the product with that numerator. This is the representation-level
/// side condition under which one step is overflow-free.
pub open spec fn scan_ok<T: FractranNat>(fr: Seq<Fraction<T>>, st: T) -> bool {
    forall|i: int|
        #![trigger fr[i]]
        (0 <= i < fr.len() && (forall|j: int|
            0 <= j < i ==> !applies(#[trigger] fracs_view(fr)[j], st.val()))) ==> st.mul_ok(
            &fr[i].spec_num(),
        )
}

/// The first applying fraction determines the step.
proof fn lemma_step_state_at(fr: Seq<(nat, nat)>, s: nat, i: int)
    requires
        0 <= i < fr.len(),
        forall|j: int| 0 <= j < i ==> !applies(#[trigger] fr[j], s),
        applies(fr[i], s),
    ensures
        step_state(fr, s) == Some((s * fr[i].0) / fr[i].1),
    decreases i,
{
    if i > 0 {
        assert(!applies(fr[0], s));
        assert forall|j: int| 0 <= j < i - 1 implies !applies(
            #[trigger] fr.drop_first()[j],
            s,
        ) by {
            assert(fr.drop_first()[j] == fr[j + 1]);
        };
        assert(fr.drop_first()[i - 1] == fr[i]);
        lemma_step_state_at(fr.drop_first(), s, i - 1);
    }
}

/// When no fraction applies, the step halts.
proof fn lemma_step_state_none(fr: Seq<(nat, nat)>, s: nat)
    requires
        forall|j: int| 0 <= j < fr.len() ==> !applies(#[trigger] fr[j], s),
    ensures
        step_state(fr, s) is None,
    decreases fr.len(),
{
    if fr.len() > 0 {
        assert forall|j: int| 0 <= j < fr.len() - 1 implies !applies(
            #[trigger] fr.drop_first()[j],
            s,
        ) by {
            assert(fr.drop_first()[j] == fr[j + 1]);
        };
        lemma_step_state_none(fr.drop_first(), s);
    }
}

/// A program in Fractran: a list of fractions. Execution proceeds by
/// multiplying the input number by each fraction in turn, overwriting the
/// current number only if the product is an integer. Execution ends when the
/// state stops changing.
pub struct Program<T: FractranNat> {
    /// The list of fractions that comprises the program.
    fracs: Vec<Fraction<T>>,
}

/// An evaluator that holds the state of a program as it runs and, each time
/// `next` is called, continues to evaluate the program by one step.
pub struct Evaluator<T: FractranNat> {
    /// The program being run as a list of fractions.
    program: Vec<Fraction<T>>,
    /// The current state of the program.
    curr_state: T,
    /// Whether this program run is over.
    finished: bool,
}

impl<T: FractranNat> Evaluator<T> {
    /// The fractions this evaluator runs.
    pub closed spec fn prog(&self) -> Seq<Fraction<T>> {
        self.program@
    }

    /// The current state's representation.
    pub closed spec fn st(&self) -> T {
        self.curr_state
    }

    /// The abstract view of the fraction list.
    pub open spec fn fr(&self) -> Seq<(nat, nat)> {
        fracs_view(self.prog())
    }

    /// The abstract value of the current state.
    pub open spec fn state_val(&self) -> nat {
        self.st().val()
    }

    /// Whether the run has reached its terminal state.
    pub closed spec fn halted(&self) -> bool {
        self.finished
    }

    /// The evaluator owns a nonempty, well-formed working list and state.
    pub open spec fn wf(&self) -> bool {
        fracs_wf(self.prog()) && self.st().wf() && self.prog().len() >= 1
    }

    /// Constructs an Evaluator from a program's fraction list and a starting
    /// state. An empty program is a caller error, excluded by precondition:
    /// a program must contain at least one fraction.
    pub fn new(program: Vec<Fraction<T>>, input: T) -> (r: Evaluator<T>)
        requires
            fracs_wf(program@),
            program@.len() >= 1,
            input.wf(),
        ensures
            r.prog() == program@,
            r.wf(),
            r.state_val() == input.val(),
            !r.halted(),
    {
        Evaluator { program, curr_state: input, finished: false }
    }

    /// Performs one step: scans the fraction list in order, adopts the first
    /// applying fraction's result as the new state and emits it; if the scan
    /// finds no applying fraction, transitions to the terminal halted state
    /// and emits nothing. Once halted, every request is a no-op.
    #[verifier::loop_isolation(false)]
    pub fn next(&mut self) -> (r: Option<T>)
        requires
            old(self).wf(),
            old(self).halted() || scan_ok(old(self).prog(), old(self).st()),
        ensures
            final(self).wf(),
            final(self).prog() == old(self).prog(),
            old(self).halted() ==> final(self).halted() && r is None && final(self).st() == old(
                self,
            ).st(),
            !old(self).halted() ==> match step_state(old(self).fr(), old(self).state_val()) {
                Some(v) => !final(self).halted() && final(self).state_val() == v && (r matches Some(
                    t,
                ) && t.wf() && t.val() == v),
                None => final(self).halted() && r is None && final(self).st() == old(self).st(),
            },
    {
        if self.finished {
            return None;
        }
        let mut i: usize = 0;
        while i < self.program.len()
            invariant
                i <= self.program@.len(),
                self == old(self),
                forall|j: int| 0 <= j < i ==> !applies(#[trigger] self.fr()[j], self.state_val()),
            decreases self.program@.len() - i,
        {
            let f = &self.program[i];
            proof {
                assert(self.fr()[i as int] == (f.num_val(), f.denom_val()));
            }
            let res = f.exec(&self.curr_state);
            match res {
                StepResult::Changed(t) => {
                    proof {
                        assert(applies(self.fr()[i as int], self.state_val()));
                        lemma_step_state_at(self.fr(), self.state_val(), i as int);
                    }
                    self.curr_state = t;
                    let out = self.curr_state.dup();
                    return Some(out);
                }
                StepResult::Unchanged(_) => {
                    proof {
                        assert(!applies(self.fr()[i as int], self.state_val()));
                    }
                    i = i + 1;
                }
            }
        }
        proof {
            lemma_step_state_none(self.fr(), self.state_val());
        }
        self.finished = true;
        None
    }
}

impl<T: FractranNat> Program<T> {
    /// The fraction list this program holds.
    pub closed spec fn fracs_seq(&self) -> Seq<Fraction<T>> {
        self.fracs@
    }

    /// The abstract view: numerator and denominator values, in order.
    pub open spec fn fr(&self) -> Seq<(nat, nat)> {
        fracs_view(self.fracs_seq())
    }

    /// Every fraction in the program is well-formed.
    pub open spec fn wf(&self) -> bool {
        fracs_wf(self.fracs_seq())
    }

    /// Makes a new `Program` with the given list of fractions.
    pub fn new(fracs: Vec<Fraction<T>>) -> (r: Program<T>)
        ensures
            r.fracs_seq() == fracs@,
    {
        Program { fracs }
    }

    /// Returns an evaluator that lazily executes the program using a single
    /// input, stopping if the program halts. The program must be nonempty.
    pub fn lazy_exec(self, input: T) -> (r: Evaluator<T>)
        requires
            self.wf(),
            self.fracs_seq().len() >= 1,
            input.wf(),
        ensures
            r.wf(),
            r.prog() == self.fracs_seq(),
            r.fr() == self.fr(),
            r.state_val() == input.val(),
            !r.halted(),
    {
        Evaluator::new(self.fracs, input)
    }

    /// Runs the program to completion and returns the last emitted state.
    /// The run must make at least one step — a run that emits nothing has no
    /// last state to return — and, because every function here must provably
    /// terminate, the run is also required to halt eventually and to stay
    /// within the representation's bounds at every reachable state.
    #[verifier::loop_isolation(false)]
    pub fn exec_to_completion(self, input: T) -> (r: T)
        requires
            self.wf(),
            self.fracs_seq().len() >= 1,
            input.wf(),
            step_state(self.fr(), input.val()) is Some,
            exists|n: nat| step_state(self.fr(), #[trigger] run_n(self.fr(), input.val(), n)) is None,
            forall|st: T, n: nat|
                #![trigger st.val(), run_n(self.fr(), input.val(), n)]
                st.wf() && st.val() == run_n(self.fr(), input.val(), n) ==> scan_ok(
                    self.fracs_seq(),
                    st,
                ),
        ensures
            r.wf(),
            exists|n: nat|
                n >= 1 && r.val() == #[trigger] run_n(self.fr(), input.val(), n) && step_state(
                    self.fr(),
                    run_n(self.fr(), input.val(), n),
                ) is None,
    {
        let ghost fr0 = self.fr();
        let ghost fs0 = self.fracs_seq();
        let ghost s0 = input.val();
        let ghost halt_n = choose|n: nat|
            step_state(fr0, #[trigger] run_n(fr0, s0, n)) is None;
        let mut ev = Evaluator::new(self.fracs, input);
        proof {
            assert(ev.st().val() == run_n(fr0, s0, 0));
            assert(scan_ok(fs0, ev.st()));
        }
        let first = ev.next();
        let mut last: T = match first {
            Some(t) => t,
            None => unreached(),
        };
        let ghost mut k: nat = 1;
        proof {
            assert(run_n(fr0, s0, 1) == ev.state_val());
            assert(halt_n >= 1) by {
                if halt_n == 0 {
                    assert(run_n(fr0, s0, 0) == s0);
                }
            }
        }
        loop
            invariant
                ev.wf(),
                !ev.halted(),
                ev.prog() == fs0,
                ev.fr() == fr0,
                1 <= k <= halt_n,
                ev.state_val() == run_n(fr0, s0, k),
                last.wf(),
                last.val() == ev.state_val(),
            decreases halt_n - k,
        {
            proof {
                assert(ev.st().val() == run_n(fr0, s0, k));
                assert(scan_ok(fs0, ev.st()));
            }
            let nxt = ev.next();
            match nxt {
                Some(t) => {
                    proof {
                        if k == halt_n {
                            assert(step_state(fr0, run_n(fr0, s0, k)) is None);
                        }
                        assert(run_n(fr0, s0, k + 1) == ev.state_val());
                        k = k + 1;
                    }
                    last = t;
                }
                None => {
                    proof {
                        assert(step_state(fr0, run_n(fr0, s0, k)) is None);
                    }
                    return last;
                }
            }
        }
    }
}

/// Cross-representation equivalence: two evaluators, over possibly different
/// numeric representations, whose programs and states stand for the same
/// abstract values emit the same abstract value sequence. The step relation
/// (`step_state`, `run_n`, `emitted`) is a function of abstract values alone,
/// and `Evaluator::next` of every representation is specified against it.
pub proof fn lemma_cross_representation<A: FractranNat, B: FractranNat>(
    a: Evaluator<A>,
    b: Evaluator<B>,
    n: nat,
)
    requires
        a.fr() == b.fr(),
        a.state_val() == b.state_val(),
    ensures
        emitted(a.fr(), a.state_val(), n) == emitted(b.fr(), b.state_val(), n),
{
}

} // verus!

