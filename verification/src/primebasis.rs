//! A type that behaves like a natural number but is stored in factorized
//! form: a vector of exponents over the fixed list of register primes.
//! Multiplication becomes exponent addition and divisibility becomes a
//! pointwise comparison, which postpones overflow during program execution.

use vstd::prelude::*;
use vstd::arithmetic::power::{
    pow, lemma_pow_adds, lemma_pow_positive, lemma_pow0, lemma_pow1,
    lemma_pow_increases,
};
use vstd::arithmetic::power2::{lemma_pow2, lemma2_to64, lemma2_to64_rest};
use crate::math::{
    divides, is_prime, is_first_primes, primes_fit, first_n_primes, lemma_divides_mod,
    lemma_divides_le, lemma_divides_transitive, lemma_euclid, lemma_prime_divisor,
    lemma_first_primes_unique, is_prime_u64,
};

verus! {

/// The register primes are available as host integers: the first `MAX_REGS`
/// primes all fit in u64. True in fact, but a machine-limit assumption here.
pub open spec fn primes_exist() -> bool {
    primes_fit(crate::MAX_REGS as nat)
}

/// The fixed ascending list of the first `MAX_REGS` primes, shared by every
/// factorization-basis number.
pub open spec fn reg_primes() -> Seq<u64> {
    choose|s: Seq<u64>| is_first_primes(s, crate::MAX_REGS as nat)
}

/// The exponent a vector holds at a position, with absent positions read as 0.
pub open spec fn exp_at(s: Seq<u32>, i: int) -> nat {
    if 0 <= i < s.len() {
        s[i] as nat
    } else {
        0
    }
}

/// Every exponent of a is at or below the corresponding exponent of b.
pub open spec fn pointwise_le(a: Seq<u32>, b: Seq<u32>) -> bool {
    forall|i: int| 0 <= i ==> #[trigger] exp_at(a, i) <= exp_at(b, i)
}

/// A sequence without its first element; the empty sequence stays empty.
pub open spec fn seq_tail<A>(s: Seq<A>) -> Seq<A> {
    if s.len() == 0 {
        s
    } else {
        s.skip(1)
    }
}

/// The positive integer an exponent vector represents over a prime list:
/// the product over all positions of primes[i] raised to exps[i].
pub open spec fn val_in(exps: Seq<u32>, primes: Seq<u64>) -> nat
    decreases exps.len(),
{
    if exps.len() == 0 {
        1
    } else {
        (pow(primes[0] as int, exps[0] as nat) * val_in(seq_tail(exps), seq_tail(primes))) as nat
    }
}

/// Reading an exponent of the tail shifts the index by one.
proof fn lemma_exp_at_tail(s: Seq<u32>, i: int)
    requires
        i >= 0,
    ensures
        exp_at(seq_tail(s), i) == exp_at(s, i + 1),
{
}

/// A represented value is always at least 1.
pub proof fn lemma_val_in_pos(s: Seq<u32>, primes: Seq<u64>)
    requires
        s.len() <= primes.len(),
        forall|i: int| 0 <= i < primes.len() ==> primes[i] >= 1,
    ensures
        val_in(s, primes) >= 1,
    decreases s.len(),
{
    if s.len() > 0 {
        lemma_pow_positive(primes[0] as int, s[0] as nat);
        lemma_val_in_pos(seq_tail(s), seq_tail(primes));
        assert(pow(primes[0] as int, s[0] as nat) * val_in(seq_tail(s), seq_tail(primes))
            >= 1) by (nonlinear_arith)
            requires
                pow(primes[0] as int, s[0] as nat) >= 1,
                val_in(seq_tail(s), seq_tail(primes)) >= 1;
    }
}

/// One unfolding step of the represented value, stated so that it also covers
/// an empty exponent vector.
proof fn lemma_val_in_unfold(s: Seq<u32>, primes: Seq<u64>)
    requires
        s.len() <= primes.len(),
        primes.len() >= 1,
        forall|i: int| 0 <= i < primes.len() ==> primes[i] >= 1,
    ensures
        val_in(s, primes) == pow(primes[0] as int, exp_at(s, 0)) * val_in(
            seq_tail(s),
            seq_tail(primes),
        ),
{
    if s.len() == 0 {
        lemma_pow0(primes[0] as int);
    } else {
        lemma_pow_positive(primes[0] as int, s[0] as nat);
        lemma_val_in_pos(seq_tail(s), seq_tail(primes));
        assert(pow(primes[0] as int, s[0] as nat) * val_in(seq_tail(s), seq_tail(primes))
            >= 1) by (nonlinear_arith)
            requires
                pow(primes[0] as int, s[0] as nat) >= 1,
                val_in(seq_tail(s), seq_tail(primes)) >= 1;
    }
}

/// If c holds, position by position, the sums of the exponents of a and b,
/// then c represents the product of the values of a and b.
pub proof fn lemma_val_in_combine(a: Seq<u32>, b: Seq<u32>, c: Seq<u32>, primes: Seq<u64>)
    requires
        a.len() <= primes.len(),
        b.len() <= primes.len(),
        c.len() <= primes.len(),
        forall|i: int| 0 <= i < primes.len() ==> primes[i] >= 1,
        forall|i: int| 0 <= i ==> #[trigger] exp_at(c, i) == exp_at(a, i) + exp_at(b, i),
    ensures
        val_in(c, primes) == val_in(a, primes) * val_in(b, primes),
    decreases a.len() + b.len() + c.len(),
{
    if a.len() == 0 && b.len() == 0 && c.len() == 0 {
    } else {
        let p0 = primes[0] as int;
        lemma_val_in_unfold(a, primes);
        lemma_val_in_unfold(b, primes);
        lemma_val_in_unfold(c, primes);
        assert(exp_at(c, 0) == exp_at(a, 0) + exp_at(b, 0));
        lemma_pow_adds(p0, exp_at(a, 0), exp_at(b, 0));
        assert forall|i: int| 0 <= i implies #[trigger] exp_at(seq_tail(c), i) == exp_at(
            seq_tail(a),
            i,
        ) + exp_at(seq_tail(b), i) by {
            lemma_exp_at_tail(a, i);
            lemma_exp_at_tail(b, i);
            lemma_exp_at_tail(c, i);
            assert(exp_at(c, i + 1) == exp_at(a, i + 1) + exp_at(b, i + 1));
        };
        lemma_val_in_combine(seq_tail(a), seq_tail(b), seq_tail(c), seq_tail(primes));
        let pa = pow(p0, exp_at(a, 0));
        let pb = pow(p0, exp_at(b, 0));
        let va = val_in(seq_tail(a), seq_tail(primes)) as int;
        let vb = val_in(seq_tail(b), seq_tail(primes)) as int;
        assert((pa * pb) * (va * vb) == (pa * va) * (pb * vb)) by (nonlinear_arith);
    }
}

/// The represented value splits at any cut point into the value of the prefix
/// times the value of the suffix over the shifted prime list.
#[verifier::rlimit(30)]
pub proof fn lemma_val_in_split(s: Seq<u32>, primes: Seq<u64>, i: int)
    requires
        0 <= i <= s.len(),
        s.len() <= primes.len(),
        forall|j: int| 0 <= j < primes.len() ==> primes[j] >= 1,
    ensures
        val_in(s, primes) == val_in(s.take(i), primes) * val_in(s.skip(i), primes.skip(i)),
    decreases i,
{
    if i == 0 {
        assert(s.take(0) =~= Seq::<u32>::empty());
        assert(s.skip(0) =~= s);
        assert(primes.skip(0) =~= primes);
        assert(val_in(s.take(0), primes) == 1);
        assert(val_in(s, primes) == 1 * val_in(s.skip(0), primes.skip(0)));
    } else {
        lemma_val_in_unfold(s, primes);
        lemma_val_in_split(seq_tail(s), seq_tail(primes), i - 1);
        assert(seq_tail(s).take(i - 1) =~= seq_tail(s.take(i)));
        assert(seq_tail(s).skip(i - 1) =~= s.skip(i));
        assert(seq_tail(primes).skip(i - 1) =~= primes.skip(i));
        lemma_val_in_unfold(s.take(i), primes);
        assert(exp_at(s.take(i), 0) == exp_at(s, 0));
        let p = pow(primes[0] as int, exp_at(s, 0));
        let x = val_in(seq_tail(s.take(i)), seq_tail(primes));
        let y = val_in(s.skip(i), primes.skip(i));
        assert(val_in(seq_tail(s), seq_tail(primes)) == x * y);
        assert(val_in(s, primes) == val_in(s.take(i), primes) * y) by (nonlinear_arith)
            requires
                val_in(s, primes) == p * (x * y),
                val_in(s.take(i), primes) == p * x;
    }
}

/// A prime that appears nowhere in the prime list positions used by the
/// vector does not divide the represented value.
pub proof fn lemma_prime_not_divides_val(p: nat, s: Seq<u32>, primes: Seq<u64>)
    requires
        is_prime(p),
        s.len() <= primes.len(),
        forall|i: int| 0 <= i < primes.len() ==> is_prime(#[trigger] (primes[i] as nat)),
        forall|i: int| 0 <= i < s.len() ==> primes[i] as nat != p,
    ensures
        !divides(p, val_in(s, primes)),
    decreases s.len(),
{
    if s.len() == 0 {
        if divides(p, 1) {
            lemma_divides_le(p, 1);
        }
    } else {
        assert(forall|i: int| 0 <= i < primes.len() ==> primes[i] >= 1);
        let q = primes[0] as nat;
        let hd = pow(primes[0] as int, s[0] as nat);
        lemma_pow_positive(primes[0] as int, s[0] as nat);
        let tl = val_in(seq_tail(s), seq_tail(primes));
        lemma_val_in_pos(seq_tail(s), seq_tail(primes));
        lemma_prime_not_divides_val(p, seq_tail(s), seq_tail(primes));
        if divides(p, val_in(s, primes)) {
            assert(val_in(s, primes) == (hd as nat) * tl);
            lemma_euclid(p, hd as nat, tl);
            if divides(p, hd as nat) {
                lemma_prime_not_divides_pow(p, q, s[0] as nat);
            }
            assert(false);
        }
    }
}

/// A prime never divides a power of a different prime.
pub proof fn lemma_prime_not_divides_pow(p: nat, q: nat, e: nat)
    requires
        is_prime(p),
        is_prime(q),
        p != q,
    ensures
        !divides(p, pow(q as int, e) as nat),
    decreases e,
{
    lemma_pow_positive(q as int, e);
    if e == 0 {
        lemma_pow0(q as int);
        if divides(p, 1) {
            lemma_divides_le(p, 1);
        }
    } else {
        lemma_prime_not_divides_pow(p, q, (e - 1) as nat);
        lemma_pow_positive(q as int, (e - 1) as nat);
        lemma_pow1(q as int);
        lemma_pow_adds(q as int, 1, (e - 1) as nat);
        assert(pow(q as int, e) == q as int * pow(q as int, (e - 1) as nat));
        assert(pow(q as int, e) as nat == q * (pow(q as int, (e - 1) as nat) as nat));
        if divides(p, pow(q as int, e) as nat) {
            assert(divides(p, q * (pow(q as int, (e - 1) as nat) as nat)));
            lemma_euclid(p, q, pow(q as int, (e - 1) as nat) as nat);
            if divides(p, q) {
                lemma_divides_le(p, q);
                assert(1 < p < q ==> !divides(p, q));
                assert(false);
            }
            assert(false);
        }
    }
}

/// The value of a vector is divisible by the prime power any single position
/// contributes, and the cofactor avoids that prime entirely.
proof fn lemma_val_in_at(s: Seq<u32>, primes: Seq<u64>, i: int) -> (m: nat)
    requires
        0 <= i < s.len(),
        s.len() <= primes.len(),
        forall|j: int| 0 <= j < primes.len() ==> is_prime(#[trigger] (primes[j] as nat)),
        forall|j: int, k: int| 0 <= j < k < primes.len() ==> primes[j] != primes[k],
    ensures
        val_in(s, primes) == (pow(primes[i] as int, s[i] as nat) as nat) * m,
        !divides(primes[i] as nat, m),
        m >= 1,
{
    assert(forall|j: int| 0 <= j < primes.len() ==> primes[j] >= 1);
    let p = primes[i] as nat;
    lemma_val_in_split(s, primes, i);
    let sk = s.skip(i);
    let pk = primes.skip(i);
    assert(sk.len() >= 1);
    lemma_val_in_unfold(sk, pk);
    assert(pk[0] == primes[i]);
    assert(exp_at(sk, 0) == s[i] as nat);
    let pre = val_in(s.take(i), primes);
    let post = val_in(seq_tail(sk), seq_tail(pk));
    lemma_val_in_pos(s.take(i), primes);
    lemma_val_in_pos(seq_tail(sk), seq_tail(pk));
    let hd = pow(primes[i] as int, s[i] as nat);
    lemma_pow_positive(primes[i] as int, s[i] as nat);
    let m = pre * post;
    assert(val_in(s, primes) == pre * ((hd as nat) * post));
    assert(pre * ((hd as nat) * post) == (hd as nat) * (pre * post)) by (nonlinear_arith);
    lemma_prime_not_divides_val(p, s.take(i), primes);
    assert(seq_tail(pk) =~= primes.skip(i + 1));
    assert(seq_tail(sk) =~= s.skip(i + 1));
    assert forall|j: int| 0 <= j < seq_tail(sk).len() implies seq_tail(pk)[j] as nat != p by {
        assert(seq_tail(pk)[j] == primes[i + 1 + j]);
    };
    lemma_prime_not_divides_val(p, seq_tail(sk), seq_tail(pk));
    if divides(p, m) {
        lemma_euclid(p, pre, post);
        assert(false);
    }
    assert(m >= 1) by (nonlinear_arith)
        requires pre >= 1, post >= 1, m == pre * post;
    m
}

/// The heart of the representation: over a list of distinct primes, the
/// represented value of a divides that of b exactly when every exponent of a
/// is at or below the corresponding exponent of b.
#[verifier::rlimit(50)]
pub proof fn lemma_divides_iff_pointwise(a: Seq<u32>, b: Seq<u32>, primes: Seq<u64>)
    requires
        a.len() <= primes.len(),
        b.len() <= primes.len(),
        forall|i: int| 0 <= i < primes.len() ==> is_prime(#[trigger] (primes[i] as nat)),
        forall|i: int, j: int| 0 <= i < j < primes.len() ==> primes[i] != primes[j],
    ensures
        divides(val_in(a, primes), val_in(b, primes)) <==> pointwise_le(a, b),
{
    assert(forall|i: int| 0 <= i < primes.len() ==> primes[i] >= 1);
    if pointwise_le(a, b) {
        let m = if a.len() > b.len() {
            a.len()
        } else {
            b.len()
        };
        let c = Seq::new(m, |i: int| (exp_at(b, i) - exp_at(a, i)) as u32);
        assert forall|i: int| 0 <= i implies #[trigger] exp_at(b, i) == exp_at(a, i) + exp_at(
            c,
            i,
        ) by {
            assert(exp_at(a, i) <= exp_at(b, i));
            if i < m {
                assert(exp_at(c, i) == c[i] as nat);
                assert(c[i] as nat == exp_at(b, i) - exp_at(a, i));
            }
        };
        lemma_val_in_combine(a, c, b, primes);
        assert(val_in(b, primes) == val_in(a, primes) * val_in(c, primes));
        assert(divides(val_in(a, primes), val_in(b, primes)));
    } else {
        let i = choose|i: int| 0 <= i && #[trigger] exp_at(a, i) > exp_at(b, i);
        assert(i < a.len());
        let p = primes[i] as nat;
        let ea = exp_at(a, i);
        let eb = exp_at(b, i);
        lemma_pow_positive(primes[i] as int, ea);
        lemma_pow_positive(primes[i] as int, eb);
        if divides(val_in(a, primes), val_in(b, primes)) {
            // the full power of p carried by a divides b's value
            let ma = lemma_val_in_at(a, primes, i);
            assert(divides(pow(primes[i] as int, ea) as nat, val_in(a, primes))) by {
                assert(val_in(a, primes) == (pow(primes[i] as int, ea) as nat) * ma);
            }
            lemma_divides_transitive(
                pow(primes[i] as int, ea) as nat,
                val_in(a, primes),
                val_in(b, primes),
            );
            // so p^(eb+1) divides b's value
            lemma_pow_adds(primes[i] as int, (eb + 1) as nat, (ea - eb - 1) as nat);
            lemma_pow_positive(primes[i] as int, (ea - eb - 1) as nat);
            lemma_pow_positive(primes[i] as int, (eb + 1) as nat);
            assert(pow(primes[i] as int, ea) as nat == (pow(primes[i] as int, (eb + 1) as nat)
                as nat) * (pow(primes[i] as int, (ea - eb - 1) as nat) as nat)) by {
                assert(ea == (eb + 1) + (ea - eb - 1));
            }
            assert(divides(
                pow(primes[i] as int, (eb + 1) as nat) as nat,
                pow(primes[i] as int, ea) as nat,
            ));
            lemma_divides_transitive(
                pow(primes[i] as int, (eb + 1) as nat) as nat,
                pow(primes[i] as int, ea) as nat,
                val_in(b, primes),
            );
            // but b's value carries p exactly eb times
            let k = choose|k: nat|
                val_in(b, primes) == #[trigger] ((pow(primes[i] as int, (eb + 1) as nat) as nat)
                    * k);
            if i < b.len() {
                let mb = lemma_val_in_at(b, primes, i);
                lemma_pow1(primes[i] as int);
                lemma_pow_adds(primes[i] as int, eb, 1);
                let peb = pow(primes[i] as int, eb);
                let peb1 = pow(primes[i] as int, (eb + 1) as nat);
                assert(peb1 == peb * primes[i] as int);
                assert(peb * mb as int == peb1 * k as int);
                assert(mb as int == primes[i] as int * k as int) by (nonlinear_arith)
                    requires
                        peb * (mb as int) == peb1 * (k as int),
                        peb1 == peb * (primes[i] as int),
                        peb >= 1;
                assert(mb == p * k);
                assert(divides(p, mb));
                assert(false);
            } else {
                // b has no entry at i at all, yet p would divide b's value
                lemma_prime_not_divides_val(p, b, primes);
                assert(eb == 0);
                lemma_pow1(primes[i] as int);
                lemma_pow_adds(primes[i] as int, 1, 0);
                lemma_pow0(primes[i] as int);
                assert(pow(primes[i] as int, (eb + 1) as nat) == primes[i] as int);
                assert(divides(p, val_in(b, primes)));
                assert(false);
            }
        }
    }
}

/// Appending one exponent multiplies the value by the matching prime power.
#[verifier::rlimit(30)]
pub proof fn lemma_val_in_push(s: Seq<u32>, e: u32, primes: Seq<u64>)
    requires
        s.len() < primes.len(),
        forall|j: int| 0 <= j < primes.len() ==> primes[j] >= 1,
    ensures
        val_in(s.push(e), primes) == val_in(s, primes) * (pow(
            primes[s.len() as int] as int,
            e as nat,
        ) as nat),
{
    let t = s.push(e);
    let n = s.len() as int;
    lemma_val_in_split(t, primes, n);
    assert(t.take(n) =~= s);
    let sk = t.skip(n);
    let pk = primes.skip(n);
    assert(sk.len() == 1);
    assert(sk[0] == e);
    assert(pk[0] == primes[n]);
    lemma_val_in_unfold(sk, pk);
    assert(seq_tail(sk).len() == 0);
    assert(val_in(seq_tail(sk), seq_tail(pk)) == 1);
    assert(exp_at(sk, 0) == e as nat);
    lemma_pow_positive(primes[n] as int, e as nat);
    assert(val_in(sk, pk) == pow(primes[n] as int, e as nat) * 1);
    assert(val_in(sk, pk) == pow(primes[n] as int, e as nat) as nat);
}

/// Any sequence satisfying the first-primes characterization for `MAX_REGS`
/// is the shared register prime list.
pub proof fn lemma_reg_primes_is(s: Seq<u64>)
    requires
        is_first_primes(s, crate::MAX_REGS as nat),
    ensures
        primes_exist(),
        reg_primes() == s,
{
    assert(primes_exist());
    assert(is_first_primes(reg_primes(), crate::MAX_REGS as nat));
    lemma_first_primes_unique(reg_primes(), s, crate::MAX_REGS as nat);
}

/// What the register prime list looks like, whenever it is available.
pub proof fn lemma_reg_primes_props()
    requires
        primes_exist(),
    ensures
        is_first_primes(reg_primes(), crate::MAX_REGS as nat),
        reg_primes().len() == crate::MAX_REGS as nat,
        forall|i: int| 0 <= i < reg_primes().len() ==> is_prime(#[trigger] (reg_primes()[i] as nat)),
        forall|i: int, j: int| 0 <= i < j < reg_primes().len() ==> reg_primes()[i] != reg_primes()[j],
        forall|i: int| 0 <= i < reg_primes().len() ==> #[trigger] reg_primes()[i] >= 1,
{
    let s = choose|s: Seq<u64>| is_first_primes(s, crate::MAX_REGS as nat);
    assert(is_first_primes(reg_primes(), crate::MAX_REGS as nat));
}

/// Establishes at run time that the first n primes are available as host
/// integers: collects primes from a search range that in fact covers the
/// first primes for every count the argument type can hold, and checks that
/// enough were found. A true result discharges the machine-limit
/// precondition of `first_n_primes` for verified callers; false can only
/// come from a count whose primes outgrow the fixed search range.
#[verifier::loop_isolation(false)]
pub fn primes_available(n: u16) -> (r: bool)
    ensures
        r ==> primes_fit(n as nat),
{
    let mut out: Vec<u64> = Vec::new();
    let mut cand: u64 = 2;
    while out.len() < n as usize && cand <= 1000000
        invariant
            2 <= cand <= 1000001,
            out@.len() <= n as nat,
            forall|i: int| 0 <= i < out@.len() ==> is_prime(#[trigger] (out@[i] as nat)),
            forall|i: int| 0 <= i < out@.len() ==> (out@[i] as nat) < cand as nat,
            forall|i: int, j: int| 0 <= i < j < out@.len() ==> out@[i] < out@[j],
            forall|q: nat|
                is_prime(q) && q < cand as nat ==> exists|j: int|
                    0 <= j < out@.len() && out@[j] as nat == q,
        decreases 1000001 - cand,
    {
        let ghost prev = out@;
        let was_prime = is_prime_u64(cand);
        if was_prime {
            out.push(cand);
        }
        cand = cand + 1;
        proof {
            assert forall|q: nat| is_prime(q) && q < cand as nat implies exists|j: int|
                0 <= j < out@.len() && out@[j] as nat == q by {
                if q == cand as nat - 1 {
                    assert(was_prime);
                    assert(out@[out@.len() - 1] as nat == q);
                } else {
                    let j = choose|j: int| 0 <= j < prev.len() && prev[j] as nat == q;
                    assert(out@[j] as nat == q);
                }
            }
        }
    }
    if out.len() < n as usize {
        return false;
    }
    proof {
        assert forall|i: int, q: nat|
            0 <= i < out@.len() && is_prime(q) && q < out@[i] as nat implies exists|j: int|
            0 <= j < i && out@[j] as nat == q by {
            assert(q < cand as nat);
            let j = choose|j: int| 0 <= j < out@.len() && out@[j] as nat == q;
            assert(j < i) by {
                if j > i {
                    assert(out@[i] < out@[j]);
                }
            }
        };
        assert(is_first_primes(out@, n as nat));
        assert(primes_fit(n as nat));
    }
    true
}

/// Establishes at run time that the register primes are available: a true
/// result discharges the machine-limit precondition of the constructors for
/// verified callers.
pub fn register_primes_available() -> (r: bool)
    ensures
        r ==> primes_exist(),
{
    primes_available(crate::MAX_REGS)
}

/// The multiplicity of p in n: how many times p divides n.
pub open spec fn prime_exp(p: nat, n: nat) -> nat
    decreases n,
    via prime_exp_decreases
{
    if p >= 2 && n >= 1 && n % p == 0 {
        1 + prime_exp(p, n / p)
    } else {
        0
    }
}

#[via_fn]
proof fn prime_exp_decreases(p: nat, n: nat) {
    if p >= 2 && n >= 1 && n % p == 0 {
        vstd::arithmetic::div_mod::lemma_div_decreases(n as int, p as int);
    }
}

/// The multiplicity is determined by any factorization n == a * p^e * b in
/// which p divides neither cofactor.
pub proof fn lemma_prime_exp_unique(p: nat, a: nat, e: nat, b: nat)
    requires
        is_prime(p),
        !divides(p, a),
        !divides(p, b),
        a >= 1,
        b >= 1,
    ensures
        prime_exp(p, a * (pow(p as int, e) as nat) * b) == e,
    decreases e,
{
    lemma_pow_positive(p as int, e);
    let n = a * (pow(p as int, e) as nat) * b;
    if e == 0 {
        lemma_pow0(p as int);
        assert(n == a * b) by (nonlinear_arith)
            requires n == a * 1 * b;
        if divides(p, n) {
            lemma_euclid(p, a, b);
            assert(false);
        }
        lemma_divides_mod(p, n);
        assert(n % p != 0);
        assert(prime_exp(p, n) == 0);
    } else {
        lemma_pow_positive(p as int, (e - 1) as nat);
        lemma_pow1(p as int);
        lemma_pow_adds(p as int, 1, (e - 1) as nat);
        let m = a * (pow(p as int, (e - 1) as nat) as nat) * b;
        assert(n == p * m) by (nonlinear_arith)
            requires
                n == a * (pow(p as int, e) as nat) * b,
                m == a * (pow(p as int, (e - 1) as nat) as nat) * b,
                pow(p as int, e) == p as int * pow(p as int, (e - 1) as nat),
                pow(p as int, (e - 1) as nat) >= 1;
        assert(divides(p, n)) by {
            assert(n == p * m);
        }
        lemma_divides_mod(p, n);
        assert(n % p == 0);
        assert(m >= 1) by (nonlinear_arith)
            requires
                a >= 1,
                b >= 1,
                m == a * (pow(p as int, (e - 1) as nat) as nat) * b,
                pow(p as int, (e - 1) as nat) >= 1;
        assert(n >= 1) by (nonlinear_arith)
            requires n == p * m, p >= 2, m >= 1;
        vstd::arithmetic::div_mod::lemma_div_multiples_vanish(m as int, p as int);
        assert(n / p == m);
        lemma_prime_exp_unique(p, a, (e - 1) as nat, b);
        assert(prime_exp(p, n) == 1 + prime_exp(p, m));
    }
}

/// Every prime factor of the number n lies in the register prime list.
pub open spec fn smooth(n: nat) -> bool {
    forall|p: nat|
        is_prime(p) && #[trigger] divides(p, n) ==> exists|j: int|
            0 <= j < reg_primes().len() && reg_primes()[j] as nat == p
}

/// A prime dividing a represented value must appear in the prime list.
proof fn lemma_val_in_smooth(s: Seq<u32>, primes: Seq<u64>)
    requires
        s.len() <= primes.len(),
        forall|i: int| 0 <= i < primes.len() ==> is_prime(#[trigger] (primes[i] as nat)),
    ensures
        forall|p: nat|
            is_prime(p) && #[trigger] divides(p, val_in(s, primes)) ==> exists|j: int|
                0 <= j < primes.len() && primes[j] as nat == p,
{
    assert forall|p: nat| is_prime(p) && #[trigger] divides(p, val_in(s, primes))
        implies exists|j: int| 0 <= j < primes.len() && primes[j] as nat == p by {
        if !(exists|j: int| 0 <= j < primes.len() && primes[j] as nat == p) {
            assert(forall|i: int| 0 <= i < s.len() ==> primes[i] as nat != p);
            lemma_prime_not_divides_val(p, s, primes);
            assert(false);
        }
    };
}

/// Every stored exponent is below the largest exponent a native integer's
/// factorization can carry.
pub open spec fn small_exps(pb: PrimeBasis) -> bool {
    forall|i: int| 0 <= i < pb.exps@.len() ==> #[trigger] pb.exps@[i] < 64
}

/// Any two bases with small exponents can be multiplied: the pairwise
/// exponent sums stay far below the exponent storage bound. In particular any
/// two bases built from native integers can.
pub proof fn lemma_small_exps_mul_ok(a: PrimeBasis, b: PrimeBasis)
    requires
        small_exps(a),
        small_exps(b),
    ensures
        crate::frac::FractranNat::mul_ok(&a, &b),
{
    assert forall|i: int| 0 <= i implies #[trigger] exp_at(a.exps@, i) + exp_at(b.exps@, i)
        <= u32::MAX by {
        assert(exp_at(a.exps@, i) < 64);
        assert(exp_at(b.exps@, i) < 64);
    };
}

/// A number is smooth exactly when no prime factor of it exceeds the largest
/// register prime.
pub proof fn lemma_smooth_iff_bounded(n: nat)
    requires
        primes_exist(),
    ensures
        smooth(n) <==> forall|p: nat|
            is_prime(p) && #[trigger] divides(p, n) ==> p <= reg_primes()[
                reg_primes().len() - 1
            ] as nat,
{
    lemma_reg_primes_props();
    let s = reg_primes();
    let last = s[s.len() - 1] as nat;
    if smooth(n) {
        assert forall|p: nat| is_prime(p) && #[trigger] divides(p, n) implies p <= last by {
            let j = choose|j: int| 0 <= j < s.len() && s[j] as nat == p;
            if j < s.len() - 1 {
                assert(s[j] < s[s.len() - 1]);
            }
        };
    }
    if forall|p: nat| is_prime(p) && #[trigger] divides(p, n) ==> p <= last {
        assert forall|p: nat| is_prime(p) && #[trigger] divides(p, n) implies exists|j: int|
            0 <= j < s.len() && s[j] as nat == p by {
            if p < last {
                assert(exists|j: int| 0 <= j < s.len() - 1 && s[j] as nat == p);
            } else {
                assert(s[s.len() - 1] as nat == p);
            }
        };
    }
}

/// The construction-time failures: trying to store zero, or a number whose
/// factorization needs a prime outside the fixed register list.
#[derive(Debug, Clone, Copy, PartialEq, Eq, Structural)]
pub enum Error {
    /// The input has a prime factor larger than the largest register prime;
    /// it carries the offending value for diagnostics.
    RegisterOverflow(u64),
    /// Zero is meaningless in Fractran programs and cannot be stored.
    NumIsZero,
}

/// Trait that expresses the ability to determine if a number divides another
/// number, stated over the positive integer a representation stands for.
pub trait Divides: Sized {
    /// The positive integer this representation stands for.
    spec fn val(&self) -> nat;

    /// The representation invariant.
    spec fn wf(&self) -> bool;

    /// Every well-formed representation stands for a positive integer.
    proof fn lemma_wf_positive(&self)
        requires
            self.wf(),
        ensures
            self.val() >= 1,
    ;

    /// Returns `true` if `rhs` is a multiple of `self` and `false` otherwise.
    fn divides(&self, rhs: &Self) -> (r: bool)
        requires
            self.wf(),
            rhs.wf(),
        ensures
            r == (rhs.val() % self.val() == 0),
    ;
}

/// A natural number, represented as a vector of exponents in the prime
/// factorization [a, b, c, ...] = 2^a * 3^b * 5^c * ...
#[derive(Debug, Clone)]
pub struct PrimeBasis {
    /// The vector of exponents. Can be at most `MAX_REGS` long, but is not
    /// guaranteed to be that long: any missing exponents are presumed to be 0.
    pub exps: Vec<u32>,
}

impl Divides for PrimeBasis {
    /// The number this basis represents: the product over all positions of
    /// the register prime raised to the stored exponent.
    open spec fn val(&self) -> nat {
        val_in(self.exps@, reg_primes())
    }

    /// The register primes are available and the vector fits the registers.
    open spec fn wf(&self) -> bool {
        primes_exist() && self.exps@.len() <= crate::MAX_REGS as nat
    }

    proof fn lemma_wf_positive(&self) {
        lemma_reg_primes_props();
        lemma_val_in_pos(self.exps@, reg_primes());
    }

    /// Checks if `rhs` is a multiple of `self`, by comparing exponents
    /// pointwise: no remainder is ever materialized.
    #[verifier::rlimit(30)]
    #[verifier::loop_isolation(false)]
    fn divides(&self, rhs: &Self) -> (r: bool) {
        proof {
            lemma_reg_primes_props();
            lemma_divides_iff_pointwise(self.exps@, rhs.exps@, reg_primes());
            lemma_val_in_pos(self.exps@, reg_primes());
            lemma_divides_mod(self.val(), rhs.val());
        }
        let n = if self.exps.len() > rhs.exps.len() {
            self.exps.len()
        } else {
            rhs.exps.len()
        };
        let mut i: usize = 0;
        while i < n
            invariant
                i <= n,
                n == if self.exps@.len() > rhs.exps@.len() {
                    self.exps@.len()
                } else {
                    rhs.exps@.len()
                },
                forall|j: int| 0 <= j < i ==> #[trigger] exp_at(self.exps@, j) <= exp_at(rhs.exps@, j),
            decreases n - i,
        {
            let ea = if i < self.exps.len() {
                self.exps[i]
            } else {
                0
            };
            let eb = if i < rhs.exps.len() {
                rhs.exps[i]
            } else {
                0
            };
            if ea > eb {
                proof {
                    assert(exp_at(self.exps@, i as int) > exp_at(rhs.exps@, i as int));
                    assert(!pointwise_le(self.exps@, rhs.exps@));
                    assert(!divides(self.val(), rhs.val()));
                    assert(rhs.val() % self.val() != 0);
                }
                return false;
            }
            i = i + 1;
        }
        proof {
            assert forall|j: int| 0 <= j implies #[trigger] exp_at(self.exps@, j) <= exp_at(
                rhs.exps@,
                j,
            ) by {
                if j >= n {
                    assert(exp_at(self.exps@, j) == 0);
                }
            };
            assert(pointwise_le(self.exps@, rhs.exps@));
        }
        true
    }
}

impl PrimeBasis {
    /// Attempts to create the prime basis representation of the given natural
    /// number by trial division against the register primes in ascending
    /// order. Returns `RegisterOverflow` if the number cannot be factored
    /// using the available registers, and `NumIsZero` if the number given is
    /// zero, which has no prime factorization. The precondition only assumes
    /// that the register primes exist as host integers, a fact of prime
    /// density that holds for any register count that fits u16.
    #[verifier::rlimit(50)]
    #[verifier::loop_isolation(false)]
    pub fn try_new(num: u64) -> (r: Result<PrimeBasis, Error>)
        requires
            primes_exist(),
        ensures
            (r == Err::<PrimeBasis, Error>(Error::NumIsZero)) <==> num == 0,
            (r == Err::<PrimeBasis, Error>(Error::RegisterOverflow(num))) <==> (num >= 1
                && !smooth(num as nat)),
            r matches Ok(pb) ==> pb.wf() && pb.val() == num as nat && small_exps(pb),
            r is Ok <==> (num >= 1 && smooth(num as nat)),
            r matches Ok(pb) ==> (pb.exps@.len() == 0 <==> num == 1),
            r matches Ok(pb) ==> (pb.exps@.len() > 0 ==> pb.exps@[pb.exps@.len() - 1] as nat
                >= 1),
            r matches Ok(pb) ==> forall|i: int|
                0 <= i < pb.exps@.len() ==> #[trigger] (pb.exps@[i] as nat) == prime_exp(
                    reg_primes()[i] as nat,
                    num as nat,
                ),
    {
        if num == 0 {
            return Err(Error::NumIsZero);
        }
        if num == 1 {
            // the number 1 has the empty factorization
            let pb = PrimeBasis { exps: Vec::new() };
            proof {
                assert(pb.val() == 1);
                assert forall|p: nat| is_prime(p) && #[trigger] divides(p, num as nat)
                    implies exists|j: int|
                    0 <= j < reg_primes().len() && reg_primes()[j] as nat == p by {
                    lemma_divides_le(p, 1);
                };
                assert(smooth(num as nat));
            }
            return Ok(pb);
        }
        let primes = first_n_primes(crate::MAX_REGS);
        proof {
            lemma_reg_primes_is(primes@);
            lemma_reg_primes_props();
        }
        let mut exps: Vec<u32> = Vec::new();
        let mut curr = num;
        let mut i: usize = 0;
        proof {
            assert(exps@.len() == 0);
            assert(val_in(exps@, primes@) == 1);
        }
        while i < primes.len()
            invariant
                primes@ == reg_primes(),
                primes_exist(),
                is_first_primes(primes@, crate::MAX_REGS as nat),
                exps@.len() == i as nat,
                i <= primes@.len(),
                1 <= curr <= num,
                2 <= num,
                num as nat == val_in(exps@, primes@) * curr as nat,
                forall|j: int| 0 <= j < exps@.len() ==> exps@[j] < 64,
                forall|j: int| 0 <= j < i ==> !divides(#[trigger] (primes@[j] as nat), curr as nat),
                forall|j: int|
                    0 <= j < i ==> #[trigger] (exps@[j] as nat) == prime_exp(
                        primes@[j] as nat,
                        num as nat,
                    ),
                curr == 1 ==> i >= 1 && exps@[i - 1] as nat >= 1,
            decreases primes@.len() - i,
        {
            if curr == 1 {
                let pb = PrimeBasis { exps };
                proof {
                    lemma_smooth_ok(pb, num);
                }
                return Ok(pb);
            }
            let p = primes[i];
            proof {
                assert(is_prime(primes@[i as int] as nat));
            }
            let ghost prev = val_in(exps@, primes@);
            let ghost curr0 = curr;
            proof {
                assert(curr0 >= 2);
                lemma_val_in_pos(exps@, primes@);
                lemma_pow0(p as int);
                assert((pow(p as int, 0) as nat) == 1);
                assert(num as nat == prev * (pow(p as int, 0) as nat) * curr as nat);
            }
            let mut exp: u32 = 0;
            while curr % p == 0
                invariant
                    primes@ == reg_primes(),
                    is_prime(p as nat),
                    p == primes@[i as int],
                    0 <= i < primes@.len(),
                    1 <= curr <= num,
                    num >= 1,
                    prev == val_in(exps@, primes@),
                    prev >= 1,
                    num as nat == prev * (pow(p as int, exp as nat) as nat) * curr as nat,
                    curr0 as nat == (pow(p as int, exp as nat) as nat) * curr as nat,
                    (pow(p as int, exp as nat) as nat) <= num as nat,
                decreases curr,
            {
                proof {
                    lemma_pow_positive(p as int, exp as nat);
                    lemma_pow_positive(p as int, (exp + 1) as nat);
                    lemma_pow1(p as int);
                    lemma_pow_adds(p as int, exp as nat, 1);
                    lemma_fundamental_div_mod_pb(curr, p);
                    lemma_exp_bound(p as nat, exp as nat, num as nat);
                    assert(num as nat == prev * (pow(p as int, (exp + 1) as nat) as nat) * (
                    curr / p) as nat && (pow(p as int, (exp + 1) as nat) as nat) <= num as nat
                        && curr / p >= 1 && curr / p < curr && curr0 as nat == (pow(
                        p as int,
                        (exp + 1) as nat,
                    ) as nat) * (curr / p) as nat) by (nonlinear_arith)
                        requires
                            num as nat == prev * (pow(p as int, exp as nat) as nat) * curr as nat,
                            curr0 as nat == (pow(p as int, exp as nat) as nat) * curr as nat,
                            curr as int == p as int * (curr as int / p as int),
                            pow(p as int, (exp + 1) as nat) == pow(p as int, exp as nat) * p as int,
                            pow(p as int, exp as nat) >= 1,
                            prev >= 1,
                            curr >= 1,
                            p >= 2;
                }
                curr = curr / p;
                exp = exp + 1;
            }
            proof {
                lemma_exp_bound(p as nat, exp as nat, num as nat);
                lemma_divides_mod(p as nat, curr as nat);
                // earlier register primes still do not divide the residue
                assert(divides(curr as nat, curr0 as nat)) by {
                    assert(curr0 as nat == curr as nat * (pow(p as int, exp as nat) as nat))
                        by (nonlinear_arith)
                        requires curr0 as nat == (pow(p as int, exp as nat) as nat) * curr as nat;
                }
                assert forall|j: int| 0 <= j < i + 1 implies !divides(
                    #[trigger] (primes@[j] as nat),
                    curr as nat,
                ) by {
                    if j < i {
                        if divides(primes@[j] as nat, curr as nat) {
                            lemma_divides_transitive(primes@[j] as nat, curr as nat, curr0 as nat);
                        }
                    }
                };
                lemma_val_in_push(exps@, exp, primes@);
                assert(val_in(exps@.push(exp), primes@) * curr as nat == num as nat)
                    by (nonlinear_arith)
                    requires
                        num as nat == val_in(exps@, primes@) * (pow(p as int, exp as nat) as nat)
                            * curr as nat,
                        val_in(exps@.push(exp), primes@) == val_in(exps@, primes@) * (pow(
                            p as int,
                            exp as nat,
                        ) as nat);
                // the extracted exponent is the multiplicity of this prime
                assert forall|j: int| 0 <= j < exps@.len() implies primes@[j] as nat != p
                    as nat by {
                    assert(primes@[j] < primes@[i as int]);
                };
                lemma_prime_not_divides_val(p as nat, exps@, primes@);
                lemma_prime_exp_unique(p as nat, prev, exp as nat, curr as nat);
                assert(prime_exp(p as nat, num as nat) == exp as nat);
                // a residue of 1 means this prime was divided out at least once
                if curr == 1 {
                    assert(exp >= 1) by {
                        if exp == 0 {
                            lemma_pow0(p as int);
                            assert(pow(p as int, exp as nat) == pow(p as int, 0));
                            assert((pow(p as int, exp as nat) as nat) == 1);
                            assert(curr0 as nat == 1 * curr as nat);
                            assert(curr0 == 1);
                        }
                    }
                }
            }
            exps.push(exp);
            i = i + 1;
        }
        if curr == 1 {
            let pb = PrimeBasis { exps };
            proof {
                lemma_smooth_ok(pb, num);
            }
            return Ok(pb);
        }
        proof {
            let p = lemma_prime_divisor(curr as nat);
            assert(divides(curr as nat, num as nat)) by {
                assert(num as nat == curr as nat * val_in(exps@, primes@)) by (nonlinear_arith)
                    requires num as nat == val_in(exps@, primes@) * curr as nat;
            }
            lemma_divides_transitive(p, curr as nat, num as nat);
            assert forall|j: int| 0 <= j < reg_primes().len()
                implies reg_primes()[j] as nat != p by {
                if reg_primes()[j] as nat == p {
                    assert(!divides(primes@[j] as nat, curr as nat));
                }
            };
            assert(!smooth(num as nat));
        }
        Err(Error::RegisterOverflow(num))
    }

    /// Returns the number corresponding to this prime basis. The represented
    /// value must fit the native integer type; that bound is a machine limit,
    /// not a property of the representation.
    #[verifier::rlimit(50)]
    #[verifier::loop_isolation(false)]
    pub fn value(&self) -> (r: u64)
        requires
            self.wf(),
            self.val() <= u64::MAX,
        ensures
            r as nat == self.val(),
    {
        let primes = first_n_primes(crate::MAX_REGS);
        proof {
            lemma_reg_primes_is(primes@);
            lemma_reg_primes_props();
        }
        let mut acc: u64 = 1;
        let mut i: usize = 0;
        while i < self.exps.len()
            invariant
                acc as nat == val_in(self.exps@.take(i as int), primes@),
                i <= self.exps@.len(),
            decreases self.exps@.len() - i,
        {
            let p = primes[i];
            let e = self.exps[i];
            proof {
                lemma_val_in_split(self.exps@, primes@, i as int);
                lemma_val_in_unfold(self.exps@.skip(i as int), primes@.skip(i as int));
                assert(primes@.skip(i as int)[0] == primes@[i as int]);
                assert(self.exps@.skip(i as int)[0] == self.exps@[i as int]);
                assert(exp_at(self.exps@.skip(i as int), 0) == e as nat);
                lemma_val_in_pos(
                    seq_tail(self.exps@.skip(i as int)),
                    seq_tail(primes@.skip(i as int)),
                );
                lemma_pow_positive(p as int, e as nat);
            }
            let ghost rest = val_in(
                seq_tail(self.exps@.skip(i as int)),
                seq_tail(primes@.skip(i as int)),
            );
            proof {
                assert(self.val() == acc as nat * (pow(p as int, e as nat) as nat) * rest)
                    by (nonlinear_arith)
                    requires
                        self.val() == acc as nat * val_in(
                            self.exps@.skip(i as int),
                            primes@.skip(i as int),
                        ),
                        val_in(self.exps@.skip(i as int), primes@.skip(i as int)) == (pow(
                            p as int,
                            e as nat,
                        ) as nat) * rest;
            }
            acc = mul_pow(acc, p, e, Ghost(self.val()), Ghost(rest));
            proof {
                lemma_val_in_push(self.exps@.take(i as int), e, primes@);
                assert(self.exps@.take(i as int).push(e) =~= self.exps@.take(i as int + 1));
                assert(self.exps@.take(i as int).len() == i as int);
            }
            i = i + 1;
        }
        proof {
            assert(self.exps@.take(self.exps@.len() as int) =~= self.exps@);
        }
        acc
    }
}

/// Multiplies the accumulator by p, e times over; the result stays within
/// the native bound because it divides a cap that fits it.
#[verifier::loop_isolation(false)]
fn mul_pow(acc: u64, p: u64, e: u32, Ghost(cap): Ghost<nat>, Ghost(rest): Ghost<nat>) -> (r: u64)
    requires
        p >= 2,
        rest >= 1,
        cap <= u64::MAX,
        cap == acc as nat * (pow(p as int, e as nat) as nat) * rest,
    ensures
        r as nat == acc as nat * (pow(p as int, e as nat) as nat),
{
    let mut r = acc;
    let mut k: u32 = 0;
    proof {
        lemma_pow0(p as int);
        assert((pow(p as int, 0) as nat) == 1);
        assert(r as nat == acc as nat * 1);
    }
    while k < e
        invariant
            k <= e,
            r as nat == acc as nat * (pow(p as int, k as nat) as nat),
            cap == r as nat * (pow(p as int, (e - k) as nat) as nat) * rest,
        decreases e - k,
    {
        proof {
            lemma_pow_positive(p as int, k as nat);
            lemma_pow_positive(p as int, (k + 1) as nat);
            lemma_pow_positive(p as int, (e - k) as nat);
            lemma_pow_positive(p as int, (e - k - 1) as nat);
            lemma_pow1(p as int);
            lemma_pow_adds(p as int, k as nat, 1);
            lemma_pow_adds(p as int, 1, (e - k - 1) as nat);
            assert(cap == (r as nat * p as nat) * (pow(p as int, (e - k - 1) as nat) as nat)
                * rest) by (nonlinear_arith)
                requires
                    cap == r as nat * (pow(p as int, (e - k) as nat) as nat) * rest,
                    pow(p as int, (e - k) as nat) == p as int * pow(p as int, (e - k - 1) as nat),
                    pow(p as int, (e - k - 1) as nat) >= 0;
            assert(r as nat * p as nat <= cap) by (nonlinear_arith)
                requires
                    cap == (r as nat * p as nat) * (pow(p as int, (e - k - 1) as nat) as nat)
                        * rest,
                    pow(p as int, (e - k - 1) as nat) >= 1,
                    rest >= 1;
            assert(r as nat * p as nat == acc as nat * (pow(p as int, (k + 1) as nat) as nat))
                by (nonlinear_arith)
                requires
                    r as nat == acc as nat * (pow(p as int, k as nat) as nat),
                    pow(p as int, (k + 1) as nat) == pow(p as int, k as nat) * p as int,
                    pow(p as int, k as nat) >= 0;
        }
        r = r * p;
        k = k + 1;
    }
    r
}

/// The exponent found by trial division is bounded: its prime power divides
/// a number that fits the native type.
proof fn lemma_exp_bound(p: nat, exp: nat, num: nat)
    requires
        is_prime(p),
        (pow(p as int, exp) as nat) <= num,
        num <= u64::MAX,
    ensures
        exp < 64,
{
    lemma_pow_base_mono(2, p, exp);
    lemma2_to64();
    lemma2_to64_rest();
    lemma_pow2(64);
    lemma_pow_positive(2, exp);
    if exp >= 64 {
        lemma_pow_increases(2, 64, exp);
        assert(false);
    }
}

/// Powers grow with the base.
#[verifier::rlimit(30)]
proof fn lemma_pow_base_mono(b1: nat, b2: nat, e: nat)
    requires
        1 <= b1 <= b2,
    ensures
        pow(b1 as int, e) <= pow(b2 as int, e),
    decreases e,
{
    if e == 0 {
        lemma_pow0(b1 as int);
        lemma_pow0(b2 as int);
    }
    if e > 0 {
        lemma_pow_base_mono(b1, b2, (e - 1) as nat);
        lemma_pow_positive(b1 as int, (e - 1) as nat);
        lemma_pow_positive(b2 as int, (e - 1) as nat);
        lemma_pow1(b1 as int);
        lemma_pow1(b2 as int);
        lemma_pow_adds(b1 as int, 1, (e - 1) as nat);
        lemma_pow_adds(b2 as int, 1, (e - 1) as nat);
        assert(pow(b1 as int, e) == b1 as int * pow(b1 as int, (e - 1) as nat));
        assert(pow(b2 as int, e) == b2 as int * pow(b2 as int, (e - 1) as nat));
        assert(b1 as int * pow(b1 as int, (e - 1) as nat) <= b2 as int * pow(
            b2 as int,
            (e - 1) as nat,
        )) by (nonlinear_arith)
            requires
                pow(b1 as int, (e - 1) as nat) <= pow(b2 as int, (e - 1) as nat),
                pow(b1 as int, (e - 1) as nat) >= 1,
                1 <= b1 <= b2;
    }
}

/// The native division step of trial division, spelled out.
proof fn lemma_fundamental_div_mod_pb(curr: u64, p: u64)
    requires
        p >= 1,
        curr % p == 0,
    ensures
        curr as int == p as int * (curr as int / p as int),
{
    vstd::arithmetic::div_mod::lemma_fundamental_div_mod(curr as int, p as int);
}

/// A successfully constructed basis represents a smooth number.
proof fn lemma_smooth_ok(pb: PrimeBasis, num: u64)
    requires
        primes_exist(),
        pb.exps@.len() <= reg_primes().len(),
        num as nat == pb.val(),
        num >= 1,
    ensures
        pb.wf(),
        smooth(num as nat),
{
    lemma_reg_primes_props();
    lemma_val_in_smooth(pb.exps@, reg_primes());
}

} // verus!

verus! {

impl crate::frac::FractranNat for PrimeBasis {
    /// Every pairwise exponent sum fits the exponent storage.
    open spec fn mul_ok(&self, other: &PrimeBasis) -> bool {
        forall|i: int|
            0 <= i ==> #[trigger] exp_at(self.exps@, i) + exp_at(other.exps@, i) <= u32::MAX
    }

    /// Copies the exponent vector: always cheap, since vectors are short.
    fn dup(&self) -> (r: PrimeBasis)
        ensures
            r.exps@ == self.exps@,
    {
        let mut exps: Vec<u32> = Vec::new();
        let mut i: usize = 0;
        while i < self.exps.len()
            invariant
                i <= self.exps@.len(),
                exps@ == self.exps@.take(i as int),
            decreases self.exps@.len() - i,
        {
            exps.push(self.exps[i]);
            proof {
                assert(exps@ =~= self.exps@.take(i as int + 1));
            }
            i = i + 1;
        }
        proof {
            assert(self.exps@.take(self.exps@.len() as int) =~= self.exps@);
        }
        PrimeBasis { exps }
    }

    /// Multiplication in the ordinary sense becomes elementwise addition of
    /// exponents, zero-padding the shorter vector: the result's length is the
    /// longer of the two inputs' and each entry is the sum of theirs.
    #[verifier::loop_isolation(false)]
    fn mul(&self, other: &PrimeBasis) -> (r: PrimeBasis)
        ensures
            r.exps@.len() == if self.exps@.len() > other.exps@.len() {
                self.exps@.len()
            } else {
                other.exps@.len()
            },
            forall|i: int|
                0 <= i ==> #[trigger] exp_at(r.exps@, i) == exp_at(self.exps@, i) + exp_at(
                    other.exps@,
                    i,
                ),
    {
        let n = if self.exps.len() > other.exps.len() {
            self.exps.len()
        } else {
            other.exps.len()
        };
        let mut exps: Vec<u32> = Vec::new();
        let mut i: usize = 0;
        while i < n
            invariant
                i <= n,
                exps@.len() == i as nat,
                forall|j: int|
                    0 <= j < i ==> #[trigger] (exps@[j] as nat) == exp_at(self.exps@, j) + exp_at(
                        other.exps@,
                        j,
                    ),
            decreases n - i,
        {
            let ea = if i < self.exps.len() {
                self.exps[i]
            } else {
                0
            };
            let eb = if i < other.exps.len() {
                other.exps[i]
            } else {
                0
            };
            proof {
                assert(exp_at(self.exps@, i as int) + exp_at(other.exps@, i as int) <= u32::MAX);
            }
            exps.push(ea + eb);
            i = i + 1;
        }
        proof {
            lemma_reg_primes_props();
            assert forall|j: int| 0 <= j implies #[trigger] exp_at(exps@, j) == exp_at(
                self.exps@,
                j,
            ) + exp_at(other.exps@, j) by {
                if j >= n {
                    assert(exp_at(exps@, j) == 0);
                }
            };
            lemma_val_in_combine(self.exps@, other.exps@, exps@, reg_primes());
        }
        PrimeBasis { exps }
    }

    /// Division becomes elementwise subtraction of exponents; the exactness
    /// precondition makes every subtraction safe. The result's length is the
    /// longer of the two inputs' and each entry is the difference of theirs.
    #[verifier::loop_isolation(false)]
    #[verifier::rlimit(30)]
    fn div(&self, other: &PrimeBasis) -> (r: PrimeBasis)
        ensures
            r.exps@.len() == if self.exps@.len() > other.exps@.len() {
                self.exps@.len()
            } else {
                other.exps@.len()
            },
            forall|i: int|
                0 <= i ==> #[trigger] exp_at(r.exps@, i) + exp_at(other.exps@, i) == exp_at(
                    self.exps@,
                    i,
                ),
    {
        proof {
            lemma_reg_primes_props();
            lemma_val_in_pos(other.exps@, reg_primes());
            lemma_divides_mod(
                val_in(other.exps@, reg_primes()),
                val_in(self.exps@, reg_primes()),
            );
            lemma_divides_iff_pointwise(other.exps@, self.exps@, reg_primes());
            assert(pointwise_le(other.exps@, self.exps@));
        }
        let n = if self.exps.len() > other.exps.len() {
            self.exps.len()
        } else {
            other.exps.len()
        };
        let mut exps: Vec<u32> = Vec::new();
        let mut i: usize = 0;
        while i < n
            invariant
                i <= n,
                exps@.len() == i as nat,
                forall|j: int|
                    0 <= j < i ==> #[trigger] (exps@[j] as nat) + exp_at(other.exps@, j) == exp_at(
                        self.exps@,
                        j,
                    ),
            decreases n - i,
        {
            let ea = if i < self.exps.len() {
                self.exps[i]
            } else {
                0
            };
            let eb = if i < other.exps.len() {
                other.exps[i]
            } else {
                0
            };
            proof {
                assert(exp_at(other.exps@, i as int) <= exp_at(self.exps@, i as int));
            }
            exps.push(ea - eb);
            i = i + 1;
        }
        proof {
            assert forall|j: int| 0 <= j implies #[trigger] exp_at(exps@, j) + exp_at(
                other.exps@,
                j,
            ) == exp_at(self.exps@, j) by {
                if j >= n {
                    assert(exp_at(exps@, j) == 0);
                }
            };
            lemma_val_in_combine(exps@, other.exps@, self.exps@, reg_primes());
            let q = val_in(exps@, reg_primes());
            let d = val_in(other.exps@, reg_primes());
            vstd::arithmetic::div_mod::lemma_div_multiples_vanish(q as int, d as int);
            assert(val_in(self.exps@, reg_primes()) as int == d as int * q as int)
                by (nonlinear_arith)
                requires val_in(self.exps@, reg_primes()) == q * d;
        }
        PrimeBasis { exps }
    }

    /// Reconstructs the native integer, which must fit the native type.
    fn to_native(&self) -> (r: u64) {
        self.value()
    }
}

} // verus!

verus! {

/// The character for one decimal digit.
pub open spec fn digit_char(d: nat) -> char {
    if d == 0 {
        '0'
    } else if d == 1 {
        '1'
    } else if d == 2 {
        '2'
    } else if d == 3 {
        '3'
    } else if d == 4 {
        '4'
    } else if d == 5 {
        '5'
    } else if d == 6 {
        '6'
    } else if d == 7 {
        '7'
    } else if d == 8 {
        '8'
    } else {
        '9'
    }
}

/// The decimal rendering of a number, most significant digit first.
pub open spec fn dec_chars(n: nat) -> Seq<char>
    decreases n,
{
    if n < 10 {
        seq![digit_char(n)]
    } else {
        dec_chars(n / 10).push(digit_char(n % 10))
    }
}

/// The rendering of one factor: the prime, a caret, its exponent.
pub open spec fn factor_chars(p: nat, e: nat) -> Seq<char> {
    dec_chars(p) + seq!['^'] + dec_chars(e)
}

/// The rendering of the factors from position i on: factors with nonzero
/// exponents joined by a multiplication sign, with "1" for an empty product.
/// `any` records whether an earlier factor was already rendered.
pub open spec fn render_tail(exps: Seq<u32>, primes: Seq<u64>, i: int, any: bool) -> Seq<char>
    decreases exps.len() - i,
{
    if i < 0 || i >= exps.len() {
        if any {
            Seq::empty()
        } else {
            seq!['1']
        }
    } else if exps[i] == 0 {
        render_tail(exps, primes, i + 1, any)
    } else {
        (if any {
            seq![' ', '\u{2715}', ' ']
        } else {
            Seq::<char>::empty()
        }) + factor_chars(primes[i] as nat, exps[i] as nat) + render_tail(exps, primes, i + 1, true)
    }
}

/// The full rendering of a basis over a prime list.
pub open spec fn render_spec(exps: Seq<u32>, primes: Seq<u64>) -> Seq<char> {
    "PrimeBasis("@ + render_tail(exps, primes, 0, false) + ")"@
}

/// Appends the decimal rendering of n.
fn append_u64(s: &mut String, n: u64)
    ensures
        final(s)@ == old(s)@ + dec_chars(n as nat),
    decreases n,
{
    if n >= 10 {
        append_u64(s, n / 10);
    }
    let d = n % 10;
    let piece = if d == 0 {
        "0"
    } else if d == 1 {
        "1"
    } else if d == 2 {
        "2"
    } else if d == 3 {
        "3"
    } else if d == 4 {
        "4"
    } else if d == 5 {
        "5"
    } else if d == 6 {
        "6"
    } else if d == 7 {
        "7"
    } else if d == 8 {
        "8"
    } else {
        "9"
    };
    proof {
        reveal_strlit("0");
        reveal_strlit("1");
        reveal_strlit("2");
        reveal_strlit("3");
        reveal_strlit("4");
        reveal_strlit("5");
        reveal_strlit("6");
        reveal_strlit("7");
        reveal_strlit("8");
        reveal_strlit("9");
        assert(piece@ =~= seq![digit_char(d as nat)]);
    }
    s.append(piece);
    proof {
        if n < 10 {
            assert(dec_chars(n as nat) =~= seq![digit_char(n as nat)]);
            assert(final(s)@ =~= old(s)@ + dec_chars(n as nat));
        } else {
            assert(dec_chars(n as nat) == dec_chars(n as nat / 10).push(
                digit_char(n as nat % 10),
            ));
            assert(final(s)@ =~= old(s)@ + dec_chars(n as nat));
        }
    }
}

impl PrimeBasis {
    /// Renders the basis as the product of prime^exponent over the positions
    /// with a nonzero exponent, joined by a multiplication sign, or as the
    /// literal rendering of 1 when every exponent is zero or absent.
    #[verifier::loop_isolation(false)]
    pub fn render(&self) -> (r: String)
        requires
            self.wf(),
        ensures
            r@ == render_spec(self.exps@, reg_primes()),
    {
        let primes = first_n_primes(crate::MAX_REGS);
        proof {
            lemma_reg_primes_is(primes@);
            reveal_strlit("PrimeBasis(");
            reveal_strlit(")");
            reveal_strlit("1");
            reveal_strlit(" \u{2715} ");
            reveal_strlit("^");
        }
        let mut s = String::new();
        s.append("PrimeBasis(");
        let mut any = false;
        let mut i: usize = 0;
        while i < self.exps.len()
            invariant
                i <= self.exps@.len(),
                "PrimeBasis("@ + render_tail(self.exps@, primes@, 0, false) =~= s@ + render_tail(
                    self.exps@,
                    primes@,
                    i as int,
                    any,
                ),
            decreases self.exps@.len() - i,
        {
            let e = self.exps[i];
            if e != 0 {
                let ghost pre = s@;
                if any {
                    s.append(" \u{2715} ");
                }
                append_u64(&mut s, primes[i]);
                s.append("^");
                append_u64(&mut s, e as u64);
                proof {
                    assert(s@ =~= pre + (if any {
                        seq![' ', '\u{2715}', ' ']
                    } else {
                        Seq::<char>::empty()
                    }) + factor_chars(primes@[i as int] as nat, self.exps@[i as int] as nat));
                    assert(pre + render_tail(self.exps@, primes@, i as int, any) =~= s@
                        + render_tail(self.exps@, primes@, i as int + 1, true));
                }
                any = true;
            }
            i = i + 1;
        }
        if !any {
            s.append("1");
        }
        s.append(")");
        proof {
            assert(s@ =~= render_spec(self.exps@, reg_primes()));
        }
        s
    }
}

} // verus!
