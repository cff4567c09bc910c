use vstd::prelude::*;
use vstd::arithmetic::div_mod::{
    lemma_fundamental_div_mod,
    lemma_fundamental_div_mod_converse,
    lemma_mod_multiples_basic,
};

verus! {

/// `k` is prime: at least 2, with no divisor strictly between 1 and itself.
pub open spec fn is_prime(k: nat) -> bool {
    k >= 2 && forall|d: nat| 2 <= d < k ==> #[trigger] (k % d) != 0
}

/// `k` is at least 2 and no `d` in `[2, bound)` with `d * d <= k` divides it:
/// what is left of `k` once the multiples of every such `d` are crossed out.
pub open spec fn survives(k: nat, bound: nat) -> bool {
    k >= 2 && forall|d: nat| 2 <= d < bound && d * d <= k ==> #[trigger] (k % d) != 0
}

/// Divisibility is transitive.
proof fn lemma_divides_trans(d: nat, i: nat, k: nat)
    requires
        d > 0,
        i > 0,
        i % d == 0,
        k % i == 0,
    ensures
        k % d == 0,
{
    lemma_fundamental_div_mod(i as int, d as int);
    lemma_fundamental_div_mod(k as int, i as int);
    let a = (i / d) as int;
    let b = (k / i) as int;
    assert(k as int == d as int * (a * b)) by (nonlinear_arith)
        requires
            k as int == i as int * b,
            i as int == d as int * a,
    ;
    lemma_mod_multiples_basic(a * b, d as int);
    assert((a * b) * d as int == d as int * (a * b)) by (nonlinear_arith);
}

/// A number without a divisor `d >= 2` with `d * d <= k` is prime.
proof fn lemma_no_small_divisor_prime(k: nat, bound: nat)
    requires
        survives(k, bound),
        k < bound * bound,
    ensures
        is_prime(k),
{
    assert forall|d: nat| 2 <= d < k implies #[trigger] (k % d) != 0 by {
        if k % d == 0 {
            lemma_fundamental_div_mod(k as int, d as int);
            let e = k / d;
            assert(k == d * e);
            if d * d <= k {
                assert(d < bound) by (nonlinear_arith)
                    requires d * d <= k, k < bound * bound, d >= 2;
                assert(k % d != 0);
            } else {
                assert(2 <= e && e * e <= k && e < bound) by (nonlinear_arith)
                    requires k == d * e, d * d > k, d < k, d >= 2, k < bound * bound;
                lemma_mod_multiples_basic(d as int, e as int);
                assert(d * e == e * d) by (nonlinear_arith);
                assert(k % e == 0);
                assert(k % e != 0);
            }
        }
    }
}

/// A prime survives crossing out by any bound.
proof fn lemma_prime_survives(k: nat, bound: nat)
    requires
        is_prime(k),
    ensures
        survives(k, bound),
{
    assert forall|d: nat| 2 <= d < bound && d * d <= k implies #[trigger] (k % d) != 0 by {
        assert(d < k) by (nonlinear_arith)
            requires d * d <= k, d >= 2;
    }
}

/// The primes up to `n` in ascending order, found with the sieve of Eratosthenes.
pub fn calculate_primes(n: u32) -> (r: Vec<u32>)
    requires
        n as int + 1 <= usize::MAX,
    ensures
        forall|x: u32| r@.contains(x) <==> x <= n && is_prime(x as nat),
        forall|a: int, b: int| 0 <= a < b < r@.len() ==> r@[a] < r@[b],
{
    let mut primes: Vec<u32> = Vec::new();
    if n < 2 {
        assert forall|x: u32| primes@.contains(x) <==> x <= n && is_prime(x as nat) by {}
        return primes;
    }
    let len: usize = n as usize + 1;
    let mut marks: Vec<bool> = vec![true; len];
    marks.set(0, false);
    marks.set(1, false);
    let mut i: u64 = 2;
    assert forall|k: nat| k <= n implies marks@[k as int] == #[trigger] survives(k, 2) by {}
    // `i <= n / i` is `i * i <= n`, written so that it cannot overflow.
    while i <= n as u64 / i
        invariant
            marks@.len() == len,
            len == n + 1,
            2 <= i,
            (i - 1) * (i - 1) <= n,
            forall|k: nat| k <= n ==> marks@[k as int] == #[trigger] survives(k, i as nat),
        decreases n + 1 - i,
    {
        proof {
            lemma_fundamental_div_mod(n as int, i as int);
            let (ni, ii) = (n as int, i as int);
            assert(ii * ii <= ni && ii <= ni) by (nonlinear_arith)
                requires ii <= ni / ii, ni == ii * (ni / ii) + ni % ii, ni % ii >= 0, ii >= 2;
            assert(marks@[i as int] == survives(i as nat, i as nat));
        }
        let ghost next: nat = (i + 1) as nat;
        if marks[i as usize] {
            let mut j: u64 = i * i;
            let ghost mut m: nat = i as nat;
            while j <= n as u64
                invariant
                    marks@.len() == len,
                    len == n + 1,
                    2 <= i,
                    i * i <= n,
                    j == m * i,
                    m >= i,
                    j <= n + i,
                    forall|k: nat| k <= n ==> #[trigger] marks@[k as int] == (survives(k, i as nat)
                        && !(k % (i as nat) == 0 && i * i <= k && k < j)),
                decreases n + i - j,
            {
                proof {
                    lemma_fundamental_div_mod_converse(j as int, i as int, m as int, 0);
                    assert(i * i <= j) by (nonlinear_arith)
                        requires j == m * i, m >= i, i >= 2;
                }
                let ghost prev = marks@;
                let ghost old_j = j;
                marks.set(j as usize, false);
                j = j + i;
                proof {
                    assert forall|k: nat| k <= n implies #[trigger] marks@[k as int] == (survives(k, i as nat)
                        && !(k % (i as nat) == 0 && i * i <= k && k < j)) by {
                        assert(prev[k as int] == (survives(k, i as nat)
                            && !(k % (i as nat) == 0 && i * i <= k && k < old_j)));
                        if old_j < k < j {
                            lemma_fundamental_div_mod_converse(k as int, i as int, m as int, k - old_j);
                        }
                    }
                    m = m + 1;
                    assert(j == m * i) by (nonlinear_arith)
                        requires j == (m - 1) * i + i;
                }
            }
            assert forall|k: nat| k <= n implies marks@[k as int] == #[trigger] survives(k, next) by {
                assert(survives(k, next) == (survives(k, i as nat) && !(k % (i as nat) == 0 && i * i <= k)));
            }
        } else {
            assert forall|k: nat| k <= n implies marks@[k as int] == #[trigger] survives(k, next) by {
                if survives(k, i as nat) && k % (i as nat) == 0 && i * i <= k {
                    let d = choose|d: nat| 2 <= d < i && d * d <= i && #[trigger] ((i as nat) % d) == 0;
                    lemma_divides_trans(d, i as nat, k);
                    assert(d * d <= k) by (nonlinear_arith)
                        requires d * d <= i, i * i <= k, i >= 2;
                }
                assert(survives(k, next) == (survives(k, i as nat) && !(k % (i as nat) == 0 && i * i <= k)));
            }
        }
        i = i + 1;
        assert(next == i as nat);
    }
    proof {
        lemma_fundamental_div_mod(n as int, i as int);
        let (ni, ii) = (n as int, i as int);
        assert(ii * ii > ni) by (nonlinear_arith)
            requires ii > ni / ii, ni == ii * (ni / ii) + ni % ii, ni % ii < ii, ii >= 2;
    }
    let mut k: usize = 0;
    while k < len
        invariant
            k <= len,
            marks@.len() == len,
            len == n + 1,
            n >= 2,
            i * i > n,
            forall|x: nat| x <= n ==> marks@[x as int] == #[trigger] survives(x, i as nat),
            forall|x: u32| primes@.contains(x) <==> x < k && is_prime(x as nat),
            forall|a: int| 0 <= a < primes@.len() ==> primes@[a] < k,
            forall|a: int, b: int| 0 <= a < b < primes@.len() ==> primes@[a] < primes@[b],
        decreases len - k,
    {
        proof {
            if marks@[k as int] {
                lemma_no_small_divisor_prime(k as nat, i as nat);
            } else if is_prime(k as nat) {
                lemma_prime_survives(k as nat, i as nat);
            }
        }
        if marks[k] {
            let ghost before = primes@;
            primes.push(k as u32);
            proof {
                assert forall|x: u32| primes@.contains(x) <==> x < k + 1 && is_prime(x as nat) by {
                    if x == k as u32 {
                        assert(primes@[before.len() as int] == x);
                    } else if primes@.contains(x) {
                        let a = choose|a: int| 0 <= a < primes@.len() && primes@[a] == x;
                        assert(before[a] == x);
                    } else if before.contains(x) {
                        let a = choose|a: int| 0 <= a < before.len() && before[a] == x;
                        assert(primes@[a] == x);
                    }
                }
            }
        } else {
            proof {
                assert forall|x: u32| primes@.contains(x) <==> x < k + 1 && is_prime(x as nat) by {
                    if x == k as u32 {
                        assert(!is_prime(x as nat));
                    }
                }
            }
        }
        k = k + 1;
    }
    primes
}

} // verus!
