//! Primality by trial division, and the next prime above a number.

use vstd::prelude::*;
use crate::overflow::check_overflow;

verus! {

/// `n` is prime: at least 2 and without a divisor strictly between 1 and `n`.
pub open spec fn is_prime(n: int) -> bool {
    n >= 2 && forall|d: int| 2 <= d < n ==> #[trigger] (n % d) != 0
}

/// When no number in `2..j` divides `n` and `j * j > n`, no number in `2..n` does:
/// a divisor `d >= j` would give the cofactor `n / d`, which lies in `2..j`.
proof fn lemma_no_divisor_beyond_root(n: int, j: int)
    requires
        n >= 2,
        j >= 2,
        j * j > n,
        forall|d: int| 2 <= d < j ==> #[trigger] (n % d) != 0,
    ensures
        is_prime(n),
{
    assert forall|d: int| 2 <= d < n implies #[trigger] (n % d) != 0 by {
        if d >= j && n % d == 0 {
            let q = n / d;
            assert(n == d * q) by (nonlinear_arith)
                requires n % d == 0, d > 0, q == n / d;
            assert(q >= 2) by (nonlinear_arith)
                requires n == d * q, d < n, d >= 2, n >= 2;
            assert(q < j) by (nonlinear_arith)
                requires n == d * q, d >= j, j * j > n, j >= 2, q >= 2;
            assert(n % q == 0) by (nonlinear_arith)
                requires n == d * q, q >= 2;
            assert(2 <= q < j);
            assert((n % q) != 0);
        }
    }
}

/// Whether `n` is prime, by trial division up to its square root.
pub fn is_prim(n: u16) -> (r: bool)
    ensures
        r == is_prime(n as int),
{
    if n < 2 {
        return false;
    }
    let m: u32 = n as u32;
    let mut j: u32 = 2;
    while j * j <= m
        invariant
            2 <= m <= 65535,
            2 <= j <= 256,
            j * j <= 65536,
            m == n as u32,
            forall|d: int| 2 <= d < j ==> #[trigger] ((m as int) % d) != 0,
        decreases 256 - j,
    {
        if m % j == 0 {
            assert(j < m) by (nonlinear_arith)
                requires j * j <= m, j >= 2;
            assert(((n as int) % (j as int)) == 0);
            assert(2 <= j < n as int);
            return false;
        }
        assert(j < 256) by (nonlinear_arith)
            requires j * j <= m, m <= 65535, j >= 2;
        assert((j + 1) * (j + 1) <= 65536) by (nonlinear_arith)
            requires j < 256;
        j = j + 1;
    }
    proof {
        lemma_no_divisor_beyond_root(m as int, j as int);
    }
    true
}

/// The least prime strictly greater than `x`, or `None` when no prime lies
/// between `x` (excluded) and `u16::MAX` (included).
pub fn next_prime(x: u16) -> (r: Option<u16>)
    ensures
        match r {
            Some(p) => x < p && is_prime(p as int) && forall|q: int| x < q < p ==> !#[trigger] is_prime(q),
            None => forall|q: int| x < q <= u16::MAX ==> !#[trigger] is_prime(q),
        },
{
    if !check_overflow(x, 1) {
        return None;
    }
    let mut i: u16 = x + 1;
    while !is_prim(i)
        invariant
            x < i,
            forall|q: int| x < q < i ==> !#[trigger] is_prime(q),
        decreases u16::MAX - i,
    {
        if !check_overflow(i, 1) {
            assert forall|q: int| x < q <= u16::MAX implies !#[trigger] is_prime(q) by {
                if q == i as int {
                } else {
                    assert(q < i);
                }
            }
            return None;
        }
        i = i + 1;
    }
    Some(i)
}

} // verus!
