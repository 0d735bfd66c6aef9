//! The work-item source of the reference domain: prime numbers. `eh_primo`
//! decides primality by trial division over the candidates `5, 7, 11, 13, …`
//! (skipping multiples of two and three), and `gerar_primos` collects the
//! first primes in order. The buffer core is agnostic to these values; they
//! are what the producers of the example programs push.

use vstd::prelude::*;
use vstd::arithmetic::div_mod::{
    lemma_fundamental_div_mod,
    lemma_fundamental_div_mod_converse_mod,
    lemma_mod_multiples_basic,
};

verus! {

/// `n` is at least two and no smaller number above one divides it.
pub open spec fn is_prime(n: nat) -> bool {
    &&& n >= 2
    &&& forall|d: nat| 2 <= d < n ==> #[trigger] (n % d) != 0
}

/// A divisor of a divisor divides: if `m` divides `n` and `k` divides `m`,
/// then `k` divides `n`.
pub proof fn lemma_divisor_of_divisor(n: nat, m: nat, k: nat)
    requires
        m >= 1,
        k >= 1,
        n % m == 0,
        m % k == 0,
    ensures
        n % k == 0,
{
    lemma_fundamental_div_mod(n as int, m as int);
    lemma_fundamental_div_mod(m as int, k as int);
    let a = n as int / m as int;
    let b = m as int / k as int;
    assert(n as int == (b * a) * (k as int)) by (nonlinear_arith)
        requires
            n as int == (m as int) * a + 0,
            m as int == (k as int) * b + 0,
    ;
    lemma_mod_multiples_basic(b * a, k as int);
}

/// Trial division is complete: if nothing in `[2, i)` divides `n` and
/// `i * i` exceeds `n`, then `n` is prime — a composite `n` would pair a
/// divisor at or above `i` with a cofactor strictly below it.
pub proof fn lemma_no_small_divisor(n: nat, i: nat)
    requires
        n >= 2,
        i >= 2,
        n < i * i,
        forall|d: nat| 2 <= d < i ==> #[trigger] (n % d) != 0,
    ensures
        is_prime(n),
{
    assert forall|d: nat| 2 <= d < n implies #[trigger] (n % d) != 0 by {
        if d >= i && n % d == 0 {
            lemma_fundamental_div_mod(n as int, d as int);
            let e = n as int / d as int;
            assert(n as int == (d as int) * e);
            assert(e >= 2) by (nonlinear_arith)
                requires
                    n as int == (d as int) * e,
                    2 <= (d as int) < n as int,
            ;
            assert(e < i) by (nonlinear_arith)
                requires
                    n as int == (d as int) * e,
                    n < i * i,
                    d >= i,
                    e >= 0,
                    i >= 2,
            ;
            lemma_mod_multiples_basic(d as int, e);
            assert((e * (d as int)) % e == 0) by (nonlinear_arith)
                requires
                    ((d as int) * e) % e == 0,
            ;
            assert(n % (e as nat) == 0);
            assert(n % (e as nat) != 0);
        }
    }
}

/// Primality test by trial division, skipping multiples of two and three:
/// after the small cases, only candidates of the shapes `6t + 5` and
/// `6t + 7` are tried, up to the square root.
pub fn eh_primo(n: usize) -> (r: bool)
    ensures
        r == is_prime(n as nat),
{
    if n <= 1 {
        return false;
    }
    if n <= 3 {
        assert(is_prime(n as nat)) by {
            assert forall|d: nat| 2 <= d < n as nat implies #[trigger] ((n as nat) % d) != 0 by {
                assert(d == 2 && n == 3);
            }
        }
        return true;
    }
    if n % 2 == 0 || n % 3 == 0 {
        return false;
    }
    let mut i: usize = 5;
    proof {
        assert forall|d: nat| 2 <= d < 5 implies #[trigger] ((n as nat) % d) != 0 by {
            if d == 4 && (n as nat) % 4 == 0 {
                lemma_divisor_of_divisor(n as nat, 4, 2);
            }
        }
    }
    while i <= n / i
        invariant
            5 <= i,
            i % 6 == 5,
            n > 3,
            n % 2 != 0,
            n % 3 != 0,
            forall|d: nat| 2 <= d < i ==> #[trigger] ((n as nat) % d) != 0,
        decreases n - i,
    {
        proof {
            lemma_fundamental_div_mod(n as int, i as int);
            assert((n as int) >= (i as int) * (i as int) && i + 6 < usize::MAX) by (nonlinear_arith)
                requires
                    i as int <= (n as int) / (i as int),
                    n as int == (i as int) * ((n as int) / (i as int)) + ((n as int) % (i as int)),
                    (n as int) % (i as int) >= 0,
                    5 <= i,
                    n <= usize::MAX,
            ;
            assert((i as int) * (i as int) > i + 2) by (nonlinear_arith)
                requires
                    5 <= i,
            ;
        }
        if n % i == 0 || n % (i + 2) == 0 {
            return false;
        }
        proof {
            assert forall|d: nat| 2 <= d < i + 6 implies #[trigger] ((n as nat) % d) != 0 by {
                let t = (i as int) / 6;
                assert(i as int == 6 * t + 5) by {
                    lemma_fundamental_div_mod(i as int, 6);
                };
                if d == i + 1 || d == i + 3 || d == i + 5 {
                    assert(d % 2 == 0) by {
                        if d == i + 1 {
                            lemma_fundamental_div_mod_converse_mod(d as int, 2, 3 * t + 3, 0);
                        } else if d == i + 3 {
                            lemma_fundamental_div_mod_converse_mod(d as int, 2, 3 * t + 4, 0);
                        } else {
                            lemma_fundamental_div_mod_converse_mod(d as int, 2, 3 * t + 5, 0);
                        }
                    };
                    if (n as nat) % d == 0 {
                        lemma_divisor_of_divisor(n as nat, d, 2);
                    }
                } else if d == i + 4 {
                    assert(d % 3 == 0) by {
                        lemma_fundamental_div_mod_converse_mod(d as int, 3, 2 * t + 3, 0);
                    };
                    if (n as nat) % d == 0 {
                        lemma_divisor_of_divisor(n as nat, d, 3);
                    }
                }
            }
        }
        i = i + 6;
    }
    proof {
        lemma_fundamental_div_mod(n as int, i as int);
        assert((n as nat) < (i as nat) * (i as nat)) by (nonlinear_arith)
            requires
                n as int == (i as int) * ((n as int) / (i as int)) + ((n as int) % (i as int)),
                0 <= (n as int) % (i as int) < i as int,
                (n as int) / (i as int) < i as int,
                i >= 5,
        ;
        lemma_no_small_divisor(n as nat, i as nat);
    }
    true
}

/// The first `count` primes, in increasing order — the deterministic, finite,
/// pure sequence the work-item source hands each producer. Every prime below
/// the machine's range is found in order, so the full count is delivered for
/// every feasible request; the contract states the (unreachable in practice)
/// alternative exactly: a short result lists every representable prime.
pub fn gerar_primos(count: usize) -> (r: Vec<usize>)
    ensures
        r@.len() <= count,
        forall|i: int| 0 <= i < r@.len() ==> is_prime((#[trigger] r@[i]) as nat),
        forall|i: int, j: int| 0 <= i < j < r@.len() ==> r@[i] < r@[j],
        r@.len() > 0 ==> forall|p: usize|
            is_prime(p as nat) && p <= r@.last() ==> r@.contains(p),
        r@.len() < count ==> forall|p: usize|
            p < usize::MAX && is_prime(p as nat) ==> r@.contains(p),
{
    let mut primos: Vec<usize> = Vec::new();
    let mut atual: usize = 2;
    while primos.len() < count && atual < usize::MAX
        invariant
            primos@.len() <= count,
            atual >= 2,
            forall|i: int| 0 <= i < primos@.len() ==> is_prime((#[trigger] primos@[i]) as nat),
            forall|i: int| 0 <= i < primos@.len() ==> primos@[i] < atual,
            forall|i: int, j: int| 0 <= i < j < primos@.len() ==> primos@[i] < primos@[j],
            forall|p: usize| p < atual && is_prime(p as nat) ==> primos@.contains(p),
        decreases usize::MAX - atual,
    {
        if eh_primo(atual) {
            let ghost prev = primos@;
            primos.push(atual);
            proof {
                assert forall|p: usize| p < atual + 1 && is_prime(p as nat) implies primos@.contains(
                    p,
                ) by {
                    if p < atual {
                        assert(prev.contains(p));
                        let w = choose|w: int| 0 <= w < prev.len() && prev[w] == p;
                        assert(primos@[w] == p);
                    } else {
                        assert(primos@[primos@.len() - 1] == p);
                    }
                }
            }
        }
        atual = atual + 1;
    }
    proof {
        if primos@.len() > 0 {
            assert forall|p: usize| is_prime(p as nat) && p <= primos@.last() implies primos@.contains(
                p,
            ) by {
                assert(primos@.last() < atual);
            }
        }
    }
    primos
}

} // verus!
