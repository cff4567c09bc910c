use vstd::prelude::*;
use vstd::arithmetic::div_mod::lemma_add_mod_noop;

verus! {

/// Sum of two 32-bit signed integers, wrapping around on overflow.
pub fn add(a: i32, b: i32) -> (r: i32)
    ensures
        r == vstd::wrapping::i32_specs::wrapping_add(a, b),
{
    a.wrapping_add(b)
}

/// The n-th Fibonacci number over the naturals.
pub open spec fn fib(n: nat) -> nat
    decreases n,
{
    if n == 0 {
        0
    } else if n == 1 {
        1
    } else {
        fib((n - 1) as nat) + fib((n - 2) as nat)
    }
}

/// The modulus of 64-bit unsigned arithmetic.
pub open spec fn modulus_u64() -> nat {
    0x1_0000_0000_0000_0000
}

/// Adding two residues with `wrapping_add` gives the residue of the sum.
proof fn lemma_wrapping_add_mod(x: nat, y: nat, a: u64, b: u64)
    requires
        a == x % modulus_u64(),
        b == y % modulus_u64(),
    ensures
        vstd::wrapping::u64_specs::wrapping_add(a, b) == (x + y) % modulus_u64(),
{
    let m = modulus_u64() as int;
    lemma_add_mod_noop(x as int, y as int, m);
    let s = a as int + b as int;
    if s >= m {
        vstd::arithmetic::div_mod::lemma_fundamental_div_mod_converse(s, m, 1, s - m);
    } else {
        vstd::arithmetic::div_mod::lemma_small_mod(s as nat, m as nat);
    }
}

/// The n-th Fibonacci number, taken modulo 2^64 (the sums wrap around).
pub fn fibonacci(n: u32) -> (r: u64)
    ensures
        r == fib(n as nat) % modulus_u64(),
{
    if n == 0 {
        return 0;
    }
    let mut a: u64 = 0;
    let mut b: u64 = 1;
    let mut k: u32 = 1;
    while k < n
        invariant
            1 <= k <= n,
            a == fib((k - 1) as nat) % modulus_u64(),
            b == fib(k as nat) % modulus_u64(),
        decreases n - k,
    {
        proof {
            lemma_wrapping_add_mod(fib((k - 1) as nat), fib(k as nat), a, b);
        }
        let temp = a.wrapping_add(b);
        a = b;
        b = temp;
        k = k + 1;
    }
    b
}

} // verus!
