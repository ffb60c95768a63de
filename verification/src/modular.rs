//! Arithmetic modulo a prime: stepping through the residues visits each of them once.

use vstd::arithmetic::div_mod::*;
use vstd::prelude::*;

verus! {

/// `n` has no divisor between 1 and itself.
pub open spec fn is_prime(n: int) -> bool {
    &&& 1 < n
    &&& forall|d: int| 1 < d < n ==> #[trigger] (n % d) != 0
}

/// The residue reached from `k` after `j` steps of size `l`.
pub open spec fn step(k: int, l: int, n: int, j: int) -> int {
    (k + j * l) % n
}

/// A prime that divides `a * b` and not `a` divides `b`.
pub proof fn lemma_prime_divides(p: int, a: int, b: int)
    requires
        is_prime(p),
        0 < a < p,
        (a * b) % p == 0,
    ensures
        b % p == 0,
    decreases a,
{
    if a == 1 {
        assert(1 * b == b);
    } else {
        let q = p / a;
        let r = p % a;
        lemma_fundamental_div_mod(p, a);
        lemma_mod_bound(p, a);
        assert(r != 0);
        assert(r * b == p * b - q * (a * b)) by (nonlinear_arith)
            requires
                p == a * q + r,
        ;
        let c = (a * b) / p;
        lemma_fundamental_div_mod(a * b, p);
        assert(r * b == p * (b - q * c)) by (nonlinear_arith)
            requires
                r * b == p * b - q * (a * b),
                a * b == p * c,
        ;
        lemma_mod_multiples_basic(b - q * c, p);
        assert((b - q * c) * p == p * (b - q * c)) by (nonlinear_arith);
        lemma_prime_divides(p, r, b);
    }
}

/// Stepping by `l`, which the prime `n` does not divide, reaches no residue twice in `n` steps.
pub proof fn lemma_steps_distinct(k: int, l: int, n: int, i: int, j: int)
    requires
        is_prime(n),
        0 < l < n,
        0 <= i < j < n,
    ensures
        step(k, l, n, i) != step(k, l, n, j),
{
    if step(k, l, n, i) == step(k, l, n, j) {
        let x = k + i * l;
        let y = k + j * l;
        lemma_fundamental_div_mod(x, n);
        lemma_fundamental_div_mod(y, n);
        let m = y / n - x / n;
        assert(l * (j - i) == n * m) by (nonlinear_arith)
            requires
                x == k + i * l,
                y == k + j * l,
                x == n * (x / n) + x % n,
                y == n * (y / n) + y % n,
                x % n == y % n,
                m == y / n - x / n,
        ;
        lemma_mod_multiples_basic(m, n);
        assert(m * n == n * m) by (nonlinear_arith);
        lemma_prime_divides(n, l, j - i);
        lemma_small_mod((j - i) as nat, n as nat);
    }
}

/// Stepping by `l`, which the prime `n` does not divide, reaches every residue in `n` steps.
pub proof fn lemma_steps_reach(k: int, l: int, n: int, t: int)
    requires
        is_prime(n),
        0 < l < n,
        0 <= t < n,
    ensures
        exists|j: int| 0 <= j < n && #[trigger] step(k, l, n, j) == t,
{
    let visited = Seq::new(n as nat, |j: int| step(k, l, n, j));
    assert(visited.no_duplicates()) by {
        assert forall|i: int, j: int|
            0 <= i < visited.len() && 0 <= j < visited.len() && i != j implies visited[i]
            != visited[j] by {
            if i < j {
                lemma_steps_distinct(k, l, n, i, j);
            } else {
                lemma_steps_distinct(k, l, n, j, i);
            }
        }
    }
    visited.unique_seq_to_set();
    let all = vstd::set_lib::set_int_range(0, n);
    vstd::set_lib::lemma_int_range(0, n);
    assert(visited.to_set().subset_of(all)) by {
        assert forall|v: int| visited.to_set().contains(v) implies all.contains(v) by {
            let j = choose|j: int| 0 <= j < visited.len() && visited[j] == v;
            lemma_mod_bound(k + j * l, n);
        }
    }
    vstd::set_lib::lemma_subset_equality(visited.to_set(), all);
    assert(visited.to_set().contains(t));
    let j = choose|j: int| 0 <= j < visited.len() && visited[j] == t;
    assert(step(k, l, n, j) == t);
}

} // verus!
