//! The narrower work-item source used by the monitor-buffer example program:
//! the same first-primes sequence over `u32`, with plain trial division by
//! every candidate up to the square root. (The reference computed the root
//! in floating point; dividing up to it decides exactly the same predicate.)

use vstd::prelude::*;
use vstd::arithmetic::div_mod::lemma_fundamental_div_mod;
use crate::primes::{is_prime, lemma_no_small_divisor};

verus! {

/// Primality by trial division over every candidate up to the square root.
pub fn eh_primo(n: u32) -> (r: bool)
    ensures
        r == is_prime(n as nat),
{
    if n <= 1 {
        return false;
    }
    let mut i: u32 = 2;
    while i <= n / i
        invariant
            2 <= i,
            n > 1,
            forall|d: nat| 2 <= d < i ==> #[trigger] ((n as nat) % d) != 0,
        decreases n - i,
    {
        proof {
            lemma_fundamental_div_mod(n as int, i as int);
            assert((n as int) >= (i as int) * (i as int) && i + 1 < u32::MAX) by (nonlinear_arith)
                requires
                    i as int <= (n as int) / (i as int),
                    n as int == (i as int) * ((n as int) / (i as int)) + ((n as int) % (i as int)),
                    (n as int) % (i as int) >= 0,
                    2 <= i,
                    n <= u32::MAX,
            ;
            assert((i as int) * (i as int) >= 2 * (i as int)) by (nonlinear_arith)
                requires
                    2 <= i,
            ;
        }
        if n % i == 0 {
            proof {
                assert((i as int) * (i as int) > i) by (nonlinear_arith)
                    requires
                        2 <= i,
                ;
            }
            return false;
        }
        i = i + 1;
    }
    proof {
        lemma_fundamental_div_mod(n as int, i as int);
        assert((n as nat) < (i as nat) * (i as nat)) by (nonlinear_arith)
            requires
                n as int == (i as int) * ((n as int) / (i as int)) + ((n as int) % (i as int)),
                0 <= (n as int) % (i as int) < i as int,
                (n as int) / (i as int) < i as int,
                i >= 2,
        ;
        lemma_no_small_divisor(n as nat, i as nat);
    }
    true
}

/// The first `count` primes over `u32`, in increasing order. The contract
/// matches the wider source: the full count is owed unless the machine range
/// runs out of primes first, in which case every representable prime below
/// the last candidate is listed.
pub fn gerar_primos(count: usize) -> (r: Vec<u32>)
    ensures
        r@.len() <= count,
        forall|i: int| 0 <= i < r@.len() ==> is_prime((#[trigger] r@[i]) as nat),
        forall|i: int, j: int| 0 <= i < j < r@.len() ==> r@[i] < r@[j],
        r@.len() > 0 ==> forall|p: u32| is_prime(p as nat) && p <= r@.last() ==> r@.contains(p),
        r@.len() < count ==> forall|p: u32| p < u32::MAX && is_prime(p as nat) ==> r@.contains(p),
{
    let mut primos: Vec<u32> = Vec::new();
    let mut candidato: u32 = 2;
    while primos.len() < count && candidato < u32::MAX
        invariant
            primos@.len() <= count,
            candidato >= 2,
            forall|i: int| 0 <= i < primos@.len() ==> is_prime((#[trigger] primos@[i]) as nat),
            forall|i: int| 0 <= i < primos@.len() ==> primos@[i] < candidato,
            forall|i: int, j: int| 0 <= i < j < primos@.len() ==> primos@[i] < primos@[j],
            forall|p: u32| p < candidato && is_prime(p as nat) ==> primos@.contains(p),
        decreases u32::MAX - candidato,
    {
        if eh_primo(candidato) {
            let ghost prev = primos@;
            primos.push(candidato);
            proof {
                assert forall|p: u32|
                    p < candidato + 1 && is_prime(p as nat) implies primos@.contains(p) by {
                    if p < candidato {
                        assert(prev.contains(p));
                        let w = choose|w: int| 0 <= w < prev.len() && prev[w] == p;
                        assert(primos@[w] == p);
                    } else {
                        assert(primos@[primos@.len() - 1] == p);
                    }
                }
            }
        }
        candidato = candidato + 1;
    }
    proof {
        if primos@.len() > 0 {
            assert forall|p: u32|
                is_prime(p as nat) && p <= primos@.last() implies primos@.contains(p) by {
                assert(primos@.last() < candidato);
            }
        }
    }
    primos
}

} // verus!
