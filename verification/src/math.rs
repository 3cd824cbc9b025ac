//! Mathematical utilities required for operating Fractran code: divisibility
//! and primality, the ascending list of the first n primes, and the number
//! theory lemmas that the factorization-basis representation rests on.

use vstd::prelude::*;
use vstd::arithmetic::div_mod::lemma_fundamental_div_mod;
use vstd::arithmetic::div_mod::lemma_mod_multiples_basic;

verus! {

/// d divides n: n is a natural multiple of d.
pub open spec fn divides(d: nat, n: nat) -> bool {
    exists|k: nat| n == #[trigger] (d * k)
}

/// A prime: at least 2, with no divisor strictly between 1 and itself.
pub open spec fn is_prime(p: nat) -> bool {
    &&& p >= 2
    &&& forall|d: nat| 1 < d < p ==> !divides(d, p)
}

/// Divisibility agrees with the remainder test.
pub proof fn lemma_divides_mod(d: nat, n: nat)
    requires
        d >= 1,
    ensures
        divides(d, n) <==> n % d == 0,
{
    if n % d == 0 {
        lemma_fundamental_div_mod(n as int, d as int);
        let k = n / d;
        assert(n == d * k);
    }
    if divides(d, n) {
        let k = choose|k: nat| n == #[trigger] (d * k);
        lemma_mod_multiples_basic(k as int, d as int);
        assert(n as int == k as int * d as int) by (nonlinear_arith)
            requires n == d * k;
    }
}

/// Every number divides itself.
pub proof fn lemma_divides_refl(n: nat)
    ensures
        divides(n, n),
{
    assert(n == n * 1);
}

/// A divisor of n divides every multiple of n.
pub proof fn lemma_divides_mul_right(d: nat, n: nat, c: nat)
    requires
        divides(d, n),
    ensures
        divides(d, n * c),
{
    let k = choose|k: nat| n == #[trigger] (d * k);
    assert(n * c == d * (k * c)) by (nonlinear_arith)
        requires n == d * k;
}

/// Divisibility is transitive.
pub proof fn lemma_divides_transitive(a: nat, b: nat, c: nat)
    requires
        divides(a, b),
        divides(b, c),
    ensures
        divides(a, c),
{
    let k1 = choose|k: nat| b == #[trigger] (a * k);
    let k2 = choose|k: nat| c == #[trigger] (b * k);
    assert(c == a * (k1 * k2)) by (nonlinear_arith)
        requires b == a * k1, c == b * k2;
}

/// A divisor of a positive number is positive and no larger than it.
pub proof fn lemma_divides_le(d: nat, n: nat)
    requires
        divides(d, n),
        n >= 1,
    ensures
        1 <= d <= n,
{
    let k = choose|k: nat| n == #[trigger] (d * k);
    assert(1 <= d <= n) by (nonlinear_arith)
        requires n == d * k, n >= 1;
}

/// A common divisor of x and y divides their difference.
pub proof fn lemma_divides_sub(d: nat, x: nat, y: nat)
    requires
        divides(d, x),
        divides(d, y),
        y <= x,
        d >= 1,
    ensures
        divides(d, (x - y) as nat),
{
    let kx = choose|k: nat| x == #[trigger] (d * k);
    let ky = choose|k: nat| y == #[trigger] (d * k);
    assert(ky <= kx && (x - y) as nat == d * ((kx - ky) as nat)) by (nonlinear_arith)
        requires x == d * kx, y == d * ky, y <= x, d >= 1;
}

/// Euclid's lemma: a prime dividing a product divides one of the factors.
pub proof fn lemma_euclid(p: nat, a: nat, b: nat)
    requires
        is_prime(p),
        divides(p, a * b),
    ensures
        divides(p, a) || divides(p, b),
    decreases a,
{
    let a0 = a % p;
    let q = a / p;
    lemma_fundamental_div_mod(a as int, p as int);
    assert(a == p * q + a0);
    assert(a * b == p * (q * b) + a0 * b) by (nonlinear_arith)
        requires a == p * q + a0;
    assert(p * (q * b) == p * (q * b) * 1);
    assert(divides(p, p * (q * b)));
    assert(a0 * b <= a * b);
    lemma_divides_sub(p, a * b, p * (q * b));
    assert(divides(p, a0 * b));
    if a0 == 0 {
        assert(a == p * q);
        assert(divides(p, a));
    } else if a0 == 1 {
        assert(a0 * b == b) by (nonlinear_arith)
            requires a0 == 1;
        assert(divides(p, b));
    } else {
        // 2 <= a0 < p: descend through the remainder of p by a0.
        let r = p % a0;
        let q2 = p / a0;
        lemma_fundamental_div_mod(p as int, a0 as int);
        assert(p == a0 * q2 + r);
        assert(p * b == (a0 * b) * q2 + r * b) by (nonlinear_arith)
            requires p == a0 * q2 + r;
        assert(p * b == p * b * 1);
        assert(divides(p, p * b));
        lemma_divides_mul_right(p, a0 * b, q2);
        assert((a0 * b) * q2 <= p * b);
        lemma_divides_sub(p, p * b, (a0 * b) * q2);
        assert(divides(p, r * b));
        if r == 0 {
            // a0 divides the prime p with 1 < a0 < p: impossible.
            assert(p == a0 * q2);
            assert(divides(a0, p));
            assert(false);
        } else {
            assert(a0 <= a);
            assert(r < a0);
            lemma_euclid(p, r, b);
            if divides(p, r) {
                lemma_divides_le(p, r);
                assert(false);
            }
        }
    }
}

/// Every number at least 2 has a prime divisor.
pub proof fn lemma_prime_divisor(n: nat) -> (p: nat)
    requires
        n >= 2,
    ensures
        is_prime(p),
        divides(p, n),
    decreases n,
{
    if is_prime(n) {
        lemma_divides_refl(n);
        n
    } else {
        let d = choose|d: nat| 1 < d < n && divides(d, n);
        assert(1 < d < n && divides(d, n));
        let p = lemma_prime_divisor(d);
        lemma_divides_transitive(p, d, n);
        p
    }
}

/// Primality test by trial division up to the square root.
pub(crate) fn is_prime_u64(c: u64) -> (r: bool)
    requires
        c >= 2,
    ensures
        r == is_prime(c as nat),
{
    let mut d: u64 = 2;
    while d <= c / d
        invariant
            2 <= d,
            c >= 2,
            forall|f: nat| 1 < f < d ==> !divides(f, c as nat),
        decreases c - d,
    {
        if c % d == 0 {
            proof {
                lemma_divides_mod(d as nat, c as nat);
                lemma_fundamental_div_mod(c as int, d as int);
                assert(d as nat * d as nat <= c as nat) by (nonlinear_arith)
                    requires d <= c / d, c == d * (c / d) + c % d;
                assert((d as nat) < c as nat) by (nonlinear_arith)
                    requires d as nat * d as nat <= c as nat, d >= 2;
                assert(!is_prime(c as nat));
            }
            return false;
        }
        proof {
            lemma_divides_mod(d as nat, c as nat);
            lemma_fundamental_div_mod(c as int, d as int);
            assert(d + 1 <= c) by (nonlinear_arith)
                requires
                    d <= c / d,
                    c == d * (c / d) + c % d,
                    d >= 2;
        }
        d = d + 1;
    }
    proof {
        lemma_fundamental_div_mod(c as int, d as int);
        assert((c as nat) < d as nat * d as nat) by (nonlinear_arith)
            requires c / d < d, c == d * (c / d) + c % d, c % d < d;
        assert forall|f: nat| 1 < f < c as nat implies !divides(f, c as nat) by {
            if divides(f, c as nat) {
                let k = choose|k: nat| c as nat == #[trigger] (f * k);
                assert(k >= 2) by (nonlinear_arith)
                    requires c as nat == f * k, 1 < f < c as nat;
                assert(divides(k, c as nat)) by {
                    assert(c as nat == k * f);
                }
                if f < d {
                    assert(false);
                } else {
                    assert(k < d) by (nonlinear_arith)
                        requires
                            c as nat == f * k,
                            f >= d,
                            (c as nat) < d as nat * d as nat,
                            k >= 2,
                            d >= 2;
                    assert(false);
                }
            }
        }
    }
    true
}

/// The ascending list of the first n primes, uniquely characterized: the
/// sequence has length n, holds only primes in strictly increasing order, and
/// every prime below any entry appears earlier in the sequence.
pub open spec fn is_first_primes(s: Seq<u64>, n: nat) -> bool {
    &&& s.len() == n
    &&& forall|i: int| 0 <= i < s.len() ==> is_prime(#[trigger] (s[i] as nat))
    &&& forall|i: int, j: int| 0 <= i < j < s.len() ==> s[i] < s[j]
    &&& forall|i: int, q: nat|
        0 <= i < s.len() && is_prime(q) && q < s[i] as nat
            ==> exists|j: int| 0 <= j < i && s[j] as nat == q
}

/// The first n primes all fit in the host's largest unsigned integer type.
/// This is true for every count that fits in u16, but it is a fact about
/// prime density that cannot be established here, so functions that need it
/// state it as a machine-limit precondition.
pub open spec fn primes_fit(n: nat) -> bool {
    exists|s: Seq<u64>| is_first_primes(s, n)
}

/// Computes the first n primes in ascending order. The precondition only
/// assumes that those primes exist as host integers, which holds for every
/// count that fits the argument type; it gives the search loop its bound.
pub fn first_n_primes(n: u16) -> (r: Vec<u64>)
    requires
        primes_fit(n as nat),
    ensures
        is_first_primes(r@, n as nat),
{
    let ghost all = choose|s: Seq<u64>| is_first_primes(s, n as nat);
    let mut out: Vec<u64> = Vec::new();
    let mut cand: u64 = 2;
    while out.len() < n as usize
        invariant
            is_first_primes(all, n as nat),
            out@.len() <= n as nat,
            out@ == all.subrange(0, out@.len() as int),
            2 <= cand,
            out@.len() < n as nat ==> forall|i: int|
                0 <= i < out@.len() ==> (out@[i] as nat) < cand as nat,
            forall|q: nat|
                is_prime(q) && q < cand as nat
                    ==> exists|j: int| 0 <= j < out@.len() && out@[j] as nat == q,
            out@.len() < n as nat ==> cand <= all[out@.len() as int],
        decreases
            n as int - out@.len() as int,
            (if out@.len() < n as nat {
                all[out@.len() as int] - cand as int
            } else {
                0
            }),
    {
        let ghost len = out@.len() as int;
        let ghost target = all[len];
        proof {
            assert(is_prime(target as nat));
            if cand < target {
                if is_prime(cand as nat) {
                    // every prime below the next expected prime is already in
                    // the prefix, yet all entries of the prefix are below cand
                    let j = choose|j: int| 0 <= j < len && all[j] as nat == cand as nat;
                    assert(out@[j] == all[j]);
                    assert(false);
                }
            }
        }
        let was_prime = is_prime_u64(cand);
        if was_prime {
            proof {
                assert(cand == target);
                assert(out@.push(cand) =~= all.subrange(0, len + 1));
            }
            out.push(cand);
        }
        if out.len() < n as usize {
            proof {
                if was_prime {
                    // the pushed prime sits strictly below the next entry
                    assert(all[len] < all[len + 1]);
                    assert(cand < all[len + 1]);
                } else {
                    assert(cand < target);
                }
                assert(cand < u64::MAX);
            }
            cand = cand + 1;
            proof {
                assert forall|q: nat| is_prime(q) && q < cand as nat
                    implies exists|j: int| 0 <= j < out@.len() && out@[j] as nat == q by {
                    if q == cand as nat - 1 {
                        if was_prime {
                            assert(out@[len] as nat == q);
                        }
                    }
                }
            }
        }
    }
    proof {
        assert(out@ =~= all);
    }
    out
}

/// A prefix of the first m primes is the first n primes: availability of a
/// longer prime list gives availability of every shorter one.
pub proof fn lemma_primes_fit_monotonic(n: nat, m: nat)
    requires
        primes_fit(m),
        n <= m,
    ensures
        primes_fit(n),
{
    let s = choose|s: Seq<u64>| is_first_primes(s, m);
    let t = s.take(n as int);
    assert forall|i: int, q: nat|
        0 <= i < t.len() && is_prime(q) && q < t[i] as nat implies exists|j: int|
        0 <= j < i && t[j] as nat == q by {
        assert(t[i] == s[i]);
        let j = choose|j: int| 0 <= j < i && s[j] as nat == q;
        assert(t[j] as nat == q);
    };
    assert(is_first_primes(t, n));
}

/// Two sequences that both satisfy the first-primes characterization agree
/// everywhere up to the given index.
proof fn lemma_first_primes_prefix(s: Seq<u64>, t: Seq<u64>, n: nat, i: int)
    requires
        is_first_primes(s, n),
        is_first_primes(t, n),
        0 <= i <= n,
    ensures
        forall|j: int| 0 <= j < i ==> s[j] == t[j],
    decreases i,
{
    if i > 0 {
        lemma_first_primes_prefix(s, t, n, i - 1);
        let m = i - 1;
        if s[m] < t[m] {
            assert(is_prime(s[m] as nat));
            let j = choose|j: int| 0 <= j < m && t[j] as nat == s[m] as nat;
            assert(s[j] == t[j]);
            assert(s[j] < s[m]);
            assert(false);
        }
        if t[m] < s[m] {
            assert(is_prime(t[m] as nat));
            let j = choose|j: int| 0 <= j < m && s[j] as nat == t[m] as nat;
            assert(s[j] == t[j]);
            assert(t[j] < t[m]);
            assert(false);
        }
    }
}

/// The first-primes characterization picks out a unique sequence.
pub proof fn lemma_first_primes_unique(s: Seq<u64>, t: Seq<u64>, n: nat)
    requires
        is_first_primes(s, n),
        is_first_primes(t, n),
    ensures
        s == t,
{
    lemma_first_primes_prefix(s, t, n, n as int);
    assert(s =~= t);
}

} // verus!
