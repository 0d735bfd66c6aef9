//! Fibonacci by the plain double recursion. The reference programs fork the
//! two branches onto threads above a sequential threshold; the value
//! computed is the same either way, and that computation is verified here.
//! The thread (or task) split around it lives in the binary.

use vstd::prelude::*;

verus! {

/// The Fibonacci sequence.
pub open spec fn fib_spec(n: nat) -> nat
    decreases n,
{
    if n == 0 {
        0
    } else if n == 1 {
        1
    } else {
        fib_spec((n - 1) as nat) + fib_spec((n - 2) as nat)
    }
}

/// The sequence paired with its successor, stepped linearly: the shape that
/// a proof by computation can evaluate far out.
pub open spec fn fib_pair(n: nat) -> (nat, nat)
    decreases n,
{
    if n == 0 {
        (0, 1)
    } else {
        let p = fib_pair((n - 1) as nat);
        (p.1, p.0 + p.1)
    }
}

/// The linear pair steps through the sequence.
pub proof fn lemma_fib_pair(n: nat)
    ensures
        fib_pair(n).0 == fib_spec(n),
        fib_pair(n).1 == fib_spec(n + 1),
    decreases n,
{
    if n > 0 {
        lemma_fib_pair((n - 1) as nat);
    }
}

/// The sequence never decreases.
pub proof fn lemma_fib_mono(m: nat, n: nat)
    requires
        m <= n,
    ensures
        fib_spec(m) <= fib_spec(n),
    decreases n,
{
    if m < n && n >= 2 {
        lemma_fib_mono(m, (n - 1) as nat);
    }
}

/// The largest index whose value a machine word holds.
pub proof fn lemma_fib_fits()
    ensures
        fib_spec(93) <= u64::MAX,
{
    lemma_fib_pair(93);
    reveal_with_fuel(fib_pair, 12);
    assert(fib_pair(10) == (55nat, 89nat));
    assert(fib_pair(20) == (6765nat, 10946nat));
    assert(fib_pair(30) == (832040nat, 1346269nat));
    assert(fib_pair(40) == (102334155nat, 165580141nat));
    assert(fib_pair(50) == (12586269025nat, 20365011074nat));
    assert(fib_pair(60) == (1548008755920nat, 2504730781961nat));
    assert(fib_pair(70) == (190392490709135nat, 308061521170129nat));
    assert(fib_pair(80) == (23416728348467685nat, 37889062373143906nat));
    assert(fib_pair(90) == (2880067194370816120nat, 4660046610375530309nat));
    assert(fib_pair(93).0 == 12200160415121876738nat);
}

/// The `n`-th Fibonacci number. Beyond index 93 the value outgrows the
/// result word, so those inputs are excluded rather than overflowing.
pub fn fib(n: u32) -> (r: u64)
    requires
        n <= 93,
    ensures
        r == fib_spec(n as nat),
    decreases n,
{
    if n <= 1 {
        return n as u64;
    }
    let r1 = fib(n - 1);
    let r2 = fib(n - 2);
    proof {
        lemma_fib_fits();
        lemma_fib_mono(n as nat, 93);
    }
    r1 + r2
}

} // verus!
