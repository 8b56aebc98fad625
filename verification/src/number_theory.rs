//! The number-theoretic groundwork for the prime-field engine: greatest
//! common divisors, Bezout coefficients, and modular inverses.

use vstd::prelude::*;
use vstd::arithmetic::div_mod::{
    lemma_fundamental_div_mod, lemma_mod_bound, lemma_mod_multiples_basic,
    lemma_mod_multiples_vanish, lemma_mod_self_0, lemma_mul_mod_noop_left,
    lemma_mul_mod_noop_right, lemma_small_mod,
};

verus! {

/// The greatest common divisor of two integers, by Euclid's recurrence.
/// For a nonpositive second argument it returns the first argument.
pub open spec fn gcd(a: int, b: int) -> int
    decreases b,
{
    if b <= 0 {
        a
    } else {
        gcd(b, a % b)
    }
}

/// A prime modulus: greater than one, with no divisor strictly between
/// one and itself.
pub open spec fn is_prime(q: int) -> bool {
    q > 1 && forall|d: int| 1 < d < q ==> #[trigger] (q % d) != 0
}

/// The canonical multiplicative inverse of `v` modulo `q`, when one exists.
pub open spec fn mod_inverse(v: int, q: int) -> int {
    choose|r: int| 0 <= r < q && #[trigger] ((r * v) % q) == 1
}

/// The gcd of a positive and a nonnegative integer is positive and divides both.
pub proof fn lemma_gcd_divides(a: int, b: int)
    requires
        a >= 1,
        b >= 0,
    ensures
        gcd(a, b) >= 1,
        a % gcd(a, b) == 0,
        b % gcd(a, b) == 0,
    decreases b,
{
    if b == 0 {
        lemma_mod_self_0(a);
        lemma_small_mod(0nat, a as nat);
    } else {
        lemma_gcd_divides(b, a % b);
        let g = gcd(b, a % b);
        // a == (a / b) * b + a % b, and g divides both terms on the right.
        lemma_fundamental_div_mod(a, b);
        lemma_divides_linear(g, a % b, b, a / b);
        assert(a % b + (a / b) * b == a) by (nonlinear_arith)
            requires
                a == b * (a / b) + a % b,
        ;
    }
}

/// If `d` divides `x` and `y`, it divides `x + c * y`.
pub proof fn lemma_divides_linear(d: int, x: int, y: int, c: int)
    requires
        d >= 1,
        x % d == 0,
        y % d == 0,
    ensures
        (x + c * y) % d == 0,
{
    lemma_fundamental_div_mod(x, d);
    lemma_fundamental_div_mod(y, d);
    let m = x / d;
    let n = y / d;
    assert(x + c * y == (m + c * n) * d) by (nonlinear_arith)
        requires
            x == d * m,
            y == d * n,
    ;
    lemma_mod_multiples_basic(m + c * n, d);
}

/// A positive divisor of a positive integer is no larger than it.
pub proof fn lemma_divisor_bound(d: int, x: int)
    requires
        d >= 1,
        x >= 1,
        x % d == 0,
    ensures
        d <= x,
{
    if d > x {
        lemma_small_mod(x as nat, d as nat);
    }
}

/// Bezout's identity: some integer combination of `a` and `b` equals their gcd.
pub proof fn lemma_bezout(a: int, b: int)
    requires
        a >= 0,
        b >= 0,
    ensures
        exists|s: int, t: int| #![trigger s * a, t * b] s * a + t * b == gcd(a, b),
    decreases b,
{
    if b == 0 {
        assert(1 * a + 0 * b == gcd(a, b)) by (nonlinear_arith)
            requires
                gcd(a, b) == a,
        ;
    } else {
        lemma_bezout(b, a % b);
        let (s, t): (int, int) = choose|s: int, t: int| #![trigger s * b, t * (a % b)] s * b + t * (a % b) == gcd(b, a % b);
        lemma_fundamental_div_mod(a, b);
        assert(t * a + (s - t * (a / b)) * b == gcd(a, b)) by (nonlinear_arith)
            requires
                s * b + t * (a % b) == gcd(b, a % b),
                a == b * (a / b) + a % b,
                gcd(a, b) == gcd(b, a % b),
        ;
    }
}

/// An element with a multiplicative inverse modulo `q` is coprime to `q`.
pub proof fn lemma_invertible_coprime(v: int, r: int, q: int)
    requires
        q > 1,
        0 <= v,
        (r * v) % q == 1,
    ensures
        gcd(q, v) == 1,
{
    lemma_gcd_divides(q, v);
    let d = gcd(q, v);
    // d divides r * v, hence divides (r * v) % q == 1.
    lemma_small_mod(0nat, d as nat);
    lemma_divides_linear(d, 0, v, r);
    assert((r * v) % d == 0);
    lemma_fundamental_div_mod(r * v, q);
    let k = (r * v) / q;
    lemma_divides_linear(d, r * v, q, -k);
    assert(r * v + (-k) * q == 1) by (nonlinear_arith)
        requires
            r * v == q * k + 1,
    ;
    lemma_divisor_bound(d, 1);
}

/// Two canonical inverses of the same element modulo `q` are equal.
pub proof fn lemma_inverse_unique(r1: int, r2: int, v: int, q: int)
    requires
        q > 1,
        0 <= r1 < q,
        0 <= r2 < q,
        (r1 * v) % q == 1,
        (r2 * v) % q == 1,
    ensures
        r1 == r2,
{
    lemma_mul_mod_noop_right(r1, r2 * v, q);
    lemma_small_mod(r1 as nat, q as nat);
    assert((r1 * (r2 * v)) % q == r1);
    assert(r1 * (r2 * v) == r2 * (r1 * v)) by (nonlinear_arith);
    lemma_mul_mod_noop_right(r2, r1 * v, q);
    lemma_small_mod(r2 as nat, q as nat);
}

/// An element coprime to the modulus has a canonical inverse, and
/// `mod_inverse` denotes it.
pub proof fn lemma_inverse_exists(v: int, q: int)
    requires
        q > 1,
        0 <= v,
        gcd(q, v) == 1,
    ensures
        0 <= mod_inverse(v, q) < q,
        (mod_inverse(v, q) * v) % q == 1,
{
    lemma_bezout(q, v);
    let (s, t): (int, int) = choose|s: int, t: int| #![trigger s * q, t * v] s * q + t * v == gcd(q, v);
    let r = t % q;
    lemma_mod_bound(t, q);
    // r * v and t * v agree modulo q, and t * v differs from 1 by a multiple of q.
    lemma_mul_mod_noop_left(t, v, q);
    assert(t * v == q * (-s) + 1) by (nonlinear_arith)
        requires
            s * q + t * v == 1,
    ;
    lemma_mod_multiples_vanish(-s, 1, q);
    lemma_small_mod(1nat, q as nat);
    assert(0 <= r < q && (r * v) % q == 1);
}

/// A prime is coprime to every smaller positive integer.
pub proof fn lemma_prime_coprime(p: int, u: int)
    requires
        is_prime(p),
        0 < u < p,
    ensures
        gcd(p, u) == 1,
{
    lemma_gcd_divides(p, u);
    let d = gcd(p, u);
    lemma_divisor_bound(d, u);
    if d > 1 {
        assert(p % d != 0);
    }
}

/// Euclid's lemma: a prime dividing a product with a factor it does not
/// divide must divide the other factor.
pub proof fn lemma_euclid(p: int, u: int, v: int)
    requires
        is_prime(p),
        0 < u < p,
        (u * v) % p == 0,
    ensures
        v % p == 0,
{
    lemma_prime_coprime(p, u);
    lemma_bezout(p, u);
    let (s, t): (int, int) = choose|s: int, t: int| #![trigger s * p, t * u] s * p + t * u == gcd(
        p,
        u,
    );
    lemma_fundamental_div_mod(u * v, p);
    let m = (u * v) / p;
    assert(v == (s * v + t * m) * p) by (nonlinear_arith)
        requires
            s * p + t * u == 1,
            u * v == p * m,
    ;
    lemma_mod_multiples_basic(s * v + t * m, p);
}

/// Over an odd prime modulus, the only square root of unity besides one
/// is the residue of minus one.
pub proof fn lemma_self_inverse_root(w: int, q: int)
    requires
        is_prime(q),
        0 <= w < q,
        (w * w) % q == 1,
        w != 1,
    ensures
        w == q - 1,
{
    if w == 0 {
        lemma_small_mod(0nat, q as nat);
    }
    assert(w >= 2);
    lemma_fundamental_div_mod(w * w, q);
    let k = (w * w) / q;
    assert((w - 1) * (w + 1) == k * q) by (nonlinear_arith)
        requires
            w * w == q * k + 1,
    ;
    lemma_mod_multiples_basic(k, q);
    lemma_euclid(q, w - 1, w + 1);
    if w + 1 < q {
        lemma_small_mod((w + 1) as nat, q as nat);
    }
}

/// Taking the canonical inverse twice gives back the element: inverse
/// involution for every invertible residue.
pub proof fn lemma_inverse_involutive(a: int, q: int)
    requires
        q > 1,
        0 < a < q,
        gcd(q, a) == 1,
    ensures
        0 <= mod_inverse(a, q) < q,
        gcd(q, mod_inverse(a, q)) == 1,
        mod_inverse(mod_inverse(a, q), q) == a,
{
    lemma_inverse_exists(a, q);
    let b = mod_inverse(a, q);
    assert(a * b == b * a) by (nonlinear_arith);
    lemma_invertible_coprime(b, a, q);
    lemma_inverse_exists(b, q);
    lemma_inverse_unique(mod_inverse(b, q), a, b, q);
}

} // verus!
