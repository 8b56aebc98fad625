//! The round trip of the transform pair: over a prime field, the inverse
//! transform undoes the forward transform, for every power-of-two length.

use vstd::prelude::*;
use vstd::arithmetic::div_mod::{
    lemma_add_mod_noop, lemma_add_mod_noop_right, lemma_mod_bound, lemma_mod_equivalence,
    lemma_mul_mod_noop_general, lemma_small_mod,
};
use vstd::arithmetic::power::{
    lemma_pow0, lemma_pow1, lemma_pow_adds, lemma_pow_distributes, lemma_pow_mod_noop,
    lemma_pow_multiplies, pow,
};
use crate::fft::{evens, intt_spec, is_pow2, ntt_spec, odds};
use crate::number_theory::{
    is_prime, lemma_divides_linear, lemma_euclid, lemma_inverse_exists, lemma_prime_coprime,
    mod_inverse,
};

verus! {

/// The partial matrix-transform sum `x[0] * w^0 + ... + x[t-1] * w^(j*(t-1))`,
/// as a plain integer.
pub open spec fn dft_sum(x: Seq<int>, w: int, j: int, t: nat) -> int
    decreases t,
{
    if t == 0 {
        0
    } else {
        dft_sum(x, w, j, (t - 1) as nat) + x[t - 1] * pow(w, (j * (t - 1)) as nat)
    }
}

/// A power of a residue congruent to one is congruent to one.
proof fn lemma_pow_of_one(u: int, m: nat, q: int)
    requires
        q > 1,
        u % q == 1,
    ensures
        pow(u, m) % q == 1,
    decreases m,
{
    if m == 0 {
        vstd::arithmetic::power::lemma_pow0(u);
        lemma_small_mod(1nat, q as nat);
    } else {
        lemma_pow_of_one(u, (m - 1) as nat, q);
        lemma_pow1(u);
        lemma_pow_adds(u, 1nat, (m - 1) as nat);
        assert(pow(u, m) == u * pow(u, (m - 1) as nat));
        lemma_mul_mod_noop_general(u, pow(u, (m - 1) as nat), q);
        lemma_small_mod(1nat, q as nat);
    }
}

/// The square of a power: `w^(2*m)` is `(w*w)^m`.
proof fn lemma_pow_double(w: int, m: int)
    requires
        m >= 0,
    ensures
        pow(w, (2 * m) as nat) == pow(w * w, m as nat),
{
    lemma_pow1(w);
    lemma_pow_adds(w, 1nat, 1nat);
    lemma_pow_multiplies(w, 2nat, m as nat);
}

/// An integer whose difference with another is a multiple of `q`, scaled.
proof fn lemma_scaled_congruent(a: int, b: int, c: int, q: int)
    requires
        q > 1,
        a % q == b % q,
    ensures
        (c * (a - b)) % q == 0,
{
    lemma_mod_equivalence(a, b, q);
    lemma_small_mod(0nat, q as nat);
    lemma_divides_linear(q, 0, a - b, c);
}

/// Splitting the transform sum by parity of the index: the even-indexed
/// entries contribute a sum under the squared root, the odd-indexed ones
/// the same with one extra factor of `w^j`.
proof fn lemma_dft_split(x: Seq<int>, w: int, q: int, j: int, t: nat)
    requires
        q > 1,
        j >= 0,
        2 * t <= x.len(),
    ensures
        dft_sum(x, w, j, (2 * t) as nat) % q == (dft_sum(evens(x), (w * w) % q, j, t) + pow(
            w,
            j as nat,
        ) * dft_sum(odds(x), (w * w) % q, j, t)) % q,
    decreases t,
{
    let w2 = (w * w) % q;
    let pw = pow(w, j as nat);
    if t == 0 {
    } else {
        lemma_dft_split(x, w, q, j, (t - 1) as nat);
        let m = j * (t - 1);
        // the two entries the step adds, and their twiddle factors
        let pe = pow(w, (j * (2 * t - 2)) as nat);
        let po = pow(w, (j * (2 * t - 1)) as nat);
        let p2 = pow(w2, m as nat);
        assert(j * (2 * t - 2) == 2 * m && j * (2 * t - 1) == 2 * m + j) by (nonlinear_arith)
            requires
                m == j * (t - 1),
                t >= 1,
        ;
        lemma_pow_double(w, m);
        lemma_pow_mod_noop(w * w, m as nat, q);
        assert(pe % q == p2 % q);
        lemma_pow_adds(w, (2 * m) as nat, j as nat);
        assert(po == pe * pw);
        // unfold one step of each sum
        assert(dft_sum(x, w, j, (2 * t) as nat) == dft_sum(x, w, j, (2 * t - 1) as nat) + x[2 * t
            - 1] * po);
        assert(dft_sum(x, w, j, (2 * t - 1) as nat) == dft_sum(x, w, j, (2 * t - 2) as nat) + x[2
            * t - 2] * pe);
        assert(evens(x)[t - 1] == x[2 * t - 2]);
        assert(odds(x)[t - 1] == x[2 * t - 1]);
        let l0 = dft_sum(x, w, j, (2 * t - 2) as nat);
        let e0 = dft_sum(evens(x), w2, j, (t - 1) as nat);
        let o0 = dft_sum(odds(x), w2, j, (t - 1) as nat);
        // the new difference is the old difference plus two scaled
        // multiples of q
        lemma_mod_equivalence(l0, e0 + pw * o0, q);
        lemma_scaled_congruent(pe, p2, x[2 * t - 2], q);
        lemma_scaled_congruent(pe, p2, x[2 * t - 1] * pw, q);
        let a = x[2 * t - 2];
        let b = x[2 * t - 1];
        let d0 = l0 - (e0 + pw * o0);
        let d1 = a * (pe - p2);
        let d2 = (b * pw) * (pe - p2);
        // distribute each product, leaving a linear combination
        assert(pw * (o0 + b * p2) == pw * o0 + (b * pw) * p2) by (nonlinear_arith);
        assert(b * (pe * pw) == (b * pw) * pe) by (nonlinear_arith);
        assert(a * (pe - p2) == a * pe - a * p2) by (nonlinear_arith);
        assert((b * pw) * (pe - p2) == (b * pw) * pe - (b * pw) * p2) by (nonlinear_arith);
        assert(dft_sum(x, w, j, (2 * t) as nat) - (dft_sum(evens(x), w2, j, t) + pw * dft_sum(
            odds(x),
            w2,
            j,
            t,
        )) == d0 + d1 + d2);
        lemma_small_mod(0nat, q as nat);
        lemma_divides_linear(q, d0, d1, 1);
        lemma_divides_linear(q, d0 + 1 * d1, d2, 1);
        assert((d0 + d1 + d2) % q == 0);
        lemma_mod_equivalence(
            dft_sum(x, w, j, (2 * t) as nat),
            dft_sum(evens(x), w2, j, t) + pw * dft_sum(odds(x), w2, j, t),
            q,
        );
    }
}

/// Shifting the entry index by the order of the root leaves the transform
/// sum unchanged modulo `q`.
proof fn lemma_dft_period(s: Seq<int>, u: int, q: int, j: int, d: int, t: nat)
    requires
        q > 1,
        j >= 0,
        d >= 0,
        pow(u, d as nat) % q == 1,
    ensures
        dft_sum(s, u, j + d, t) % q == dft_sum(s, u, j, t) % q,
    decreases t,
{
    if t == 0 {
    } else {
        lemma_dft_period(s, u, q, j, d, (t - 1) as nat);
        let m = j * (t - 1);
        let md = d * (t - 1);
        assert((j + d) * (t - 1) == m + md) by (nonlinear_arith)
            requires
                m == j * (t - 1),
                md == d * (t - 1),
        ;
        lemma_pow_adds(u, m as nat, md as nat);
        lemma_pow_multiplies(u, d as nat, (t - 1) as nat);
        lemma_pow_of_one(pow(u, d as nat), (t - 1) as nat, q);
        let p = pow(u, m as nat);
        let pd = pow(u, md as nat);
        // the step terms differ by a multiple of q
        lemma_small_mod(1nat, q as nat);
        lemma_scaled_congruent(pd, 1, s[t - 1] * p, q);
        let d0 = dft_sum(s, u, j + d, (t - 1) as nat) - dft_sum(s, u, j, (t - 1) as nat);
        let d1 = (s[t - 1] * p) * (pd - 1);
        assert(s[t - 1] * (p * pd) - s[t - 1] * p == d1) by (nonlinear_arith)
            requires
                d1 == (s[t - 1] * p) * (pd - 1),
        ;
        lemma_mod_equivalence(
            dft_sum(s, u, j + d, (t - 1) as nat),
            dft_sum(s, u, j, (t - 1) as nat),
            q,
        );
        lemma_small_mod(0nat, q as nat);
        lemma_divides_linear(q, d0, d1, 1);
        lemma_mod_equivalence(dft_sum(s, u, j + d, t), dft_sum(s, u, j, t), q);
    }
}

/// The inner product of transform row `k` with inverse-transform row `l`:
/// the sum over `j < t` of `w^(j*k) * wiv^(l*j)`.
spec fn orth_sum(w: int, wiv: int, k: int, l: int, t: nat) -> int
    decreases t,
{
    if t == 0 {
        0
    } else {
        orth_sum(w, wiv, k, l, (t - 1) as nat) + pow(w, ((t - 1) * k) as nat) * pow(
            wiv,
            (l * (t - 1)) as nat,
        )
    }
}

/// The double sum grouped by entry: the sum over `k < s` of
/// `x[k] * orth_sum(k, l, t)`.
spec fn paired_sum(x: Seq<int>, w: int, wiv: int, l: int, t: nat, s: nat) -> int
    decreases s,
{
    if s == 0 {
        0
    } else {
        paired_sum(x, w, wiv, l, t, (s - 1) as nat) + x[s - 1] * orth_sum(w, wiv, s - 1, l, t)
    }
}

/// The double sum grouped by row: the sum over `j < t` of the transform
/// value at `j` times `wiv^(l*j)`.
spec fn outer_sum(x: Seq<int>, w: int, wiv: int, l: int, t: nat) -> int
    decreases t,
{
    if t == 0 {
        0
    } else {
        outer_sum(x, w, wiv, l, (t - 1) as nat) + dft_sum(x, w, t - 1, x.len()) * pow(
            wiv,
            (l * (t - 1)) as nat,
        )
    }
}

/// The geometric sum `1 + u + ... + u^(t-1)`.
spec fn geo_sum(u: int, t: nat) -> int
    decreases t,
{
    if t == 0 {
        0
    } else {
        geo_sum(u, (t - 1) as nat) + pow(u, (t - 1) as nat)
    }
}

/// With no rows taken, the grouped-by-entry double sum vanishes.
proof fn lemma_paired_empty(x: Seq<int>, w: int, wiv: int, l: int, s: nat)
    ensures
        paired_sum(x, w, wiv, l, 0, s) == 0,
    decreases s,
{
    if s > 0 {
        lemma_paired_empty(x, w, wiv, l, (s - 1) as nat);
        assert(x[s - 1] * orth_sum(w, wiv, s - 1, l, 0) == 0) by (nonlinear_arith)
            requires
                orth_sum(w, wiv, s - 1, l, 0) == 0,
        ;
    }
}

/// Taking one more row adds that row's transform value times its
/// inverse-twiddle, however the double sum is grouped.
proof fn lemma_paired_step(x: Seq<int>, w: int, wiv: int, l: int, t: nat, s: nat)
    requires
        t >= 1,
        s <= x.len(),
    ensures
        paired_sum(x, w, wiv, l, t, s) == paired_sum(x, w, wiv, l, (t - 1) as nat, s) + dft_sum(
            x,
            w,
            t - 1,
            s,
        ) * pow(wiv, (l * (t - 1)) as nat),
    decreases s,
{
    let c = pow(wiv, (l * (t - 1)) as nat);
    if s == 0 {
        assert(dft_sum(x, w, t - 1, 0) * c == 0) by (nonlinear_arith)
            requires
                dft_sum(x, w, t - 1, 0) == 0,
        ;
    } else {
        lemma_paired_step(x, w, wiv, l, t, (s - 1) as nat);
        let a = x[s - 1];
        let p = pow(w, ((t - 1) * (s - 1)) as nat);
        let o0 = orth_sum(w, wiv, s - 1, l, (t - 1) as nat);
        let d0 = dft_sum(x, w, t - 1, (s - 1) as nat);
        assert(orth_sum(w, wiv, s - 1, l, t) == o0 + p * c);
        assert(dft_sum(x, w, t - 1, s) == d0 + a * p);
        assert(a * (o0 + p * c) == a * o0 + (a * p) * c) by (nonlinear_arith);
        assert((d0 + a * p) * c == d0 * c + (a * p) * c) by (nonlinear_arith);
    }
}

/// The two groupings of the double sum agree.
proof fn lemma_sum_exchange(x: Seq<int>, w: int, wiv: int, l: int, t: nat)
    ensures
        outer_sum(x, w, wiv, l, t) == paired_sum(x, w, wiv, l, t, x.len()),
    decreases t,
{
    if t == 0 {
        lemma_paired_empty(x, w, wiv, l, x.len());
    } else {
        lemma_sum_exchange(x, w, wiv, l, (t - 1) as nat);
        lemma_paired_step(x, w, wiv, l, t, x.len());
    }
}

/// Each inner product is a geometric sum in the product of the two powers.
proof fn lemma_orth_is_geo(w: int, wiv: int, k: int, l: int, t: nat)
    requires
        k >= 0,
        l >= 0,
    ensures
        orth_sum(w, wiv, k, l, t) == geo_sum(pow(w, k as nat) * pow(wiv, l as nat), t),
    decreases t,
{
    if t > 0 {
        lemma_orth_is_geo(w, wiv, k, l, (t - 1) as nat);
        assert((t - 1) * k == k * (t - 1)) by (nonlinear_arith);
        lemma_pow_multiplies(w, k as nat, (t - 1) as nat);
        lemma_pow_multiplies(wiv, l as nat, (t - 1) as nat);
        lemma_pow_distributes(pow(w, k as nat), pow(wiv, l as nat), (t - 1) as nat);
    }
}

/// The closed form of the geometric sum: `(u - 1) * geo == u^t - 1`.
proof fn lemma_geo_closed(u: int, t: nat)
    ensures
        (u - 1) * geo_sum(u, t) == pow(u, t) - 1,
    decreases t,
{
    if t == 0 {
        lemma_pow0(u);
    } else {
        lemma_geo_closed(u, (t - 1) as nat);
        lemma_pow1(u);
        lemma_pow_adds(u, 1nat, (t - 1) as nat);
        assert(pow(u, t) == u * pow(u, (t - 1) as nat));
        let g0 = geo_sum(u, (t - 1) as nat);
        let p0 = pow(u, (t - 1) as nat);
        assert((u - 1) * (g0 + p0) == (u - 1) * g0 + u * p0 - p0) by (nonlinear_arith);
    }
}

/// A geometric sum of a residue congruent to one counts its terms.
proof fn lemma_geo_of_one(u: int, q: int, t: nat)
    requires
        q > 1,
        u % q == 1,
    ensures
        geo_sum(u, t) % q == (t as int) % q,
    decreases t,
{
    if t == 0 {
    } else {
        lemma_geo_of_one(u, q, (t - 1) as nat);
        lemma_pow_of_one(u, (t - 1) as nat, q);
        lemma_small_mod(1nat, q as nat);
        lemma_mod_equivalence(geo_sum(u, (t - 1) as nat), (t - 1) as int, q);
        lemma_mod_equivalence(pow(u, (t - 1) as nat), 1, q);
        lemma_small_mod(0nat, q as nat);
        lemma_divides_linear(
            q,
            geo_sum(u, (t - 1) as nat) - (t - 1),
            pow(u, (t - 1) as nat) - 1,
            1,
        );
        lemma_mod_equivalence(geo_sum(u, t), t as int, q);
    }
}

/// A geometric sum of a residue of full order vanishes modulo a prime.
proof fn lemma_geo_vanishes(u: int, q: int, t: nat)
    requires
        is_prime(q),
        u % q != 1,
        pow(u, t) % q == 1,
    ensures
        geo_sum(u, t) % q == 0,
{
    lemma_geo_closed(u, t);
    let g = geo_sum(u, t);
    lemma_small_mod(1nat, q as nat);
    lemma_mod_equivalence(pow(u, t), 1, q);
    assert(((u - 1) * g) % q == 0);
    // reduce the first factor so Euclid's lemma applies
    lemma_mod_bound(u - 1, q);
    let ur = (u - 1) % q;
    lemma_mul_mod_noop_general(u - 1, g, q);
    assert((ur * g) % q == 0);
    if ur == 0 {
        lemma_mod_equivalence(u, 1, q);
        lemma_small_mod(1nat, q as nat);
    }
    lemma_euclid(q, ur, g);
}

/// Powers of the root and of its inverse cancel pairwise.
proof fn lemma_pow_inverse_one(w: int, wiv: int, q: int, m: nat)
    requires
        q > 1,
        (wiv * w) % q == 1,
    ensures
        (pow(w, m) * pow(wiv, m)) % q == 1,
        pow(wiv, m) % q == 1 ==> pow(w, m) % q == 1,
{
    lemma_pow_of_one(wiv * w, m, q);
    lemma_pow_distributes(wiv, w, m);
    assert(pow(w, m) * pow(wiv, m) == pow(wiv, m) * pow(w, m)) by (nonlinear_arith);
    if pow(wiv, m) % q == 1 {
        let a = pow(w, m);
        let b = pow(wiv, m);
        lemma_mul_mod_noop_general(b, a, q);
        assert((b % q) * (a % q) == a % q) by (nonlinear_arith)
            requires
                b % q == 1,
        ;
        lemma_mod_bound(a, q);
        lemma_small_mod((a % q) as nat, q as nat);
    }
}

/// The inner products of the transform pair: the length on the diagonal,
/// zero off it.
proof fn lemma_orth_value(w: int, wiv: int, q: int, k: int, l: int, n: nat)
    requires
        is_prime(q),
        0 <= w < q,
        0 <= wiv < q,
        (wiv * w) % q == 1,
        pow(w, n) % q == 1,
        forall|m: int| 0 < m < n ==> #[trigger] pow(w, m as nat) % q != 1,
        0 <= k < n,
        0 <= l < n,
    ensures
        k == l ==> orth_sum(w, wiv, k, l, n) % q == (n as int) % q,
        k != l ==> orth_sum(w, wiv, k, l, n) % q == 0,
{
    lemma_orth_is_geo(w, wiv, k, l, n);
    let a = pow(w, k as nat);
    let b = pow(wiv, l as nat);
    let u = a * b;
    assert(w * wiv == wiv * w) by (nonlinear_arith);
    if k == l {
        lemma_pow_distributes(w, wiv, k as nat);
        lemma_pow_of_one(w * wiv, k as nat, q);
        lemma_geo_of_one(u, q, n);
    } else {
        // the product has full order, so its geometric sum vanishes
        lemma_pow_multiplies(w, k as nat, n);
        lemma_pow_multiplies(w, n, k as nat);
        assert(k * n == n * k) by (nonlinear_arith);
        lemma_pow_of_one(pow(w, n), k as nat, q);
        assert(pow(a, n) % q == 1);
        lemma_pow_multiplies(wiv, l as nat, n);
        lemma_pow_multiplies(wiv, n, l as nat);
        assert(l * n == n * l) by (nonlinear_arith);
        lemma_pow_inverse_one(w, wiv, q, n);
        assert(pow(wiv, n) % q == 1) by {
            let aa = pow(w, n);
            let bb = pow(wiv, n);
            lemma_mul_mod_noop_general(bb, aa, q);
            assert(aa * bb == bb * aa) by (nonlinear_arith);
            assert((bb % q) * (aa % q) == bb % q) by (nonlinear_arith)
                requires
                    aa % q == 1,
            ;
            lemma_mod_bound(bb, q);
            lemma_small_mod((bb % q) as nat, q as nat);
        }
        lemma_pow_of_one(pow(wiv, n), l as nat, q);
        assert(pow(b, n) % q == 1);
        assert(pow(u, n) % q == 1) by {
            lemma_pow_distributes(a, b, n);
            lemma_mul_mod_noop_general(pow(a, n), pow(b, n), q);
            assert((pow(a, n) % q) * (pow(b, n) % q) == 1) by (nonlinear_arith)
                requires
                    pow(a, n) % q == 1,
                    pow(b, n) % q == 1,
            ;
            lemma_small_mod(1nat, q as nat);
        }
        // the product of distinct rows is not congruent to one
        if u % q == 1 {
            if k > l {
                let d = k - l;
                lemma_pow_adds(w, l as nat, d as nat);
                lemma_pow_distributes(w, wiv, l as nat);
                lemma_pow_of_one(w * wiv, l as nat, q);
                let v = pow(w * wiv, l as nat);
                assert(u == pow(w, d as nat) * v) by (nonlinear_arith)
                    requires
                        a == pow(w, l as nat) * pow(w, d as nat),
                        v == pow(w, l as nat) * pow(wiv, l as nat),
                        u == a * b,
                        b == pow(wiv, l as nat),
                ;
                lemma_mul_mod_noop_general(pow(w, d as nat), v, q);
                assert((pow(w, d as nat) % q) * (v % q) == pow(w, d as nat) % q)
                    by (nonlinear_arith)
                    requires
                        v % q == 1,
                ;
                lemma_mod_bound(pow(w, d as nat), q);
                lemma_small_mod((pow(w, d as nat) % q) as nat, q as nat);
                assert(pow(w, d as nat) % q == 1);
                assert(false);
            } else {
                let d = l - k;
                lemma_pow_adds(wiv, k as nat, d as nat);
                lemma_pow_distributes(w, wiv, k as nat);
                lemma_pow_of_one(w * wiv, k as nat, q);
                let v = pow(w * wiv, k as nat);
                assert(u == pow(wiv, d as nat) * v) by (nonlinear_arith)
                    requires
                        b == pow(wiv, k as nat) * pow(wiv, d as nat),
                        v == pow(w, k as nat) * pow(wiv, k as nat),
                        u == a * b,
                        a == pow(w, k as nat),
                ;
                lemma_mul_mod_noop_general(pow(wiv, d as nat), v, q);
                assert((pow(wiv, d as nat) % q) * (v % q) == pow(wiv, d as nat) % q)
                    by (nonlinear_arith)
                    requires
                        v % q == 1,
                ;
                lemma_mod_bound(pow(wiv, d as nat), q);
                lemma_small_mod((pow(wiv, d as nat) % q) as nat, q as nat);
                lemma_pow_inverse_one(w, wiv, q, d as nat);
                assert(pow(w, d as nat) % q == 1);
                assert(false);
            }
        }
        lemma_geo_vanishes(u, q, n);
    }
}

/// Summing the reduced transform values against the inverse twiddles is
/// congruent to the grouped-by-row double sum.
proof fn lemma_outer_matches(x: Seq<int>, y: Seq<int>, w: int, wiv: int, q: int, l: int, t: nat)
    requires
        q > 1,
        t <= y.len(),
        forall|j: int| 0 <= j < t ==> #[trigger] y[j] == dft_sum(x, w, j, x.len()) % q,
    ensures
        dft_sum(y, wiv, l, t) % q == outer_sum(x, w, wiv, l, t) % q,
    decreases t,
{
    if t > 0 {
        lemma_outer_matches(x, y, w, wiv, q, l, (t - 1) as nat);
        let c = pow(wiv, (l * (t - 1)) as nat);
        let f = dft_sum(x, w, t - 1, x.len());
        lemma_mod_bound(f, q);
        lemma_small_mod((f % q) as nat, q as nat);
        lemma_scaled_congruent(y[t - 1], f, c, q);
        let d0 = dft_sum(y, wiv, l, (t - 1) as nat) - outer_sum(x, w, wiv, l, (t - 1) as nat);
        let d1 = c * (y[t - 1] - f);
        lemma_mod_equivalence(
            dft_sum(y, wiv, l, (t - 1) as nat),
            outer_sum(x, w, wiv, l, (t - 1) as nat),
            q,
        );
        assert(y[t - 1] * c - f * c == d1) by (nonlinear_arith)
            requires
                d1 == c * (y[t - 1] - f),
        ;
        lemma_small_mod(0nat, q as nat);
        lemma_divides_linear(q, d0, d1, 1);
        lemma_mod_equivalence(dft_sum(y, wiv, l, t), outer_sum(x, w, wiv, l, t), q);
    }
}

/// Evaluating the grouped-by-entry double sum: only the diagonal entry
/// survives, scaled by the length.
proof fn lemma_paired_value(x: Seq<int>, w: int, wiv: int, q: int, l: int, n: nat, s: nat)
    requires
        is_prime(q),
        0 <= w < q,
        0 <= wiv < q,
        (wiv * w) % q == 1,
        pow(w, n) % q == 1,
        forall|m: int| 0 < m < n ==> #[trigger] pow(w, m as nat) % q != 1,
        0 <= l < n,
        s <= n,
    ensures
        paired_sum(x, w, wiv, l, n, s) % q == if l < s {
            (x[l] * (n as int)) % q
        } else {
            0
        },
    decreases s,
{
    lemma_small_mod(0nat, q as nat);
    if s > 0 {
        lemma_paired_value(x, w, wiv, q, l, n, (s - 1) as nat);
        let k = s - 1;
        lemma_orth_value(w, wiv, q, k, l, n);
        let o = orth_sum(w, wiv, k, l, n);
        let p0 = paired_sum(x, w, wiv, l, n, (s - 1) as nat);
        if k == l {
            lemma_scaled_congruent(o, n as int, x[l], q);
            lemma_mod_equivalence(p0, 0, q);
            assert(x[l] * o - x[l] * (n as int) == x[l] * (o - n)) by (nonlinear_arith);
            lemma_divides_linear(q, p0, x[l] * (o - n), 1);
            lemma_mod_equivalence(paired_sum(x, w, wiv, l, n, s), x[l] * (n as int), q);
        } else {
            lemma_scaled_congruent(o, 0, x[k], q);
            assert(x[k] * (o - 0) == x[k] * o) by (nonlinear_arith);
            if l < s {
                lemma_mod_equivalence(p0, x[l] * (n as int), q);
                lemma_divides_linear(q, p0 - x[l] * (n as int), x[k] * o, 1);
                lemma_mod_equivalence(paired_sum(x, w, wiv, l, n, s), x[l] * (n as int), q);
            } else {
                lemma_mod_equivalence(p0, 0, q);
                lemma_divides_linear(q, p0, x[k] * o, 1);
                lemma_mod_equivalence(paired_sum(x, w, wiv, l, n, s), 0, q);
            }
        }
    }
}

/// The recursive transform computes the matrix transform: entry `j` is
/// the sum of `x[k] * w^(j*k)` over all `k`, reduced modulo `q`.
pub proof fn lemma_ntt_entry(x: Seq<int>, w: int, q: int, j: int)
    requires
        q > 1,
        0 <= w < q,
        x.len() >= 2,
        is_pow2(x.len() as int),
        pow(w, x.len() as nat) % q == 1,
        0 <= j < x.len(),
    ensures
        ntt_spec(x, w, q)[j] == dft_sum(x, w, j, x.len()) % q,
    decreases x.len(),
{
    let n = x.len();
    if n == 2 {
        lemma_pow0(w);
        lemma_pow1(w);
        assert(dft_sum(x, w, j, 2) == dft_sum(x, w, j, 1) + x[1] * pow(w, (j * 1) as nat));
        assert(dft_sum(x, w, j, 1) == dft_sum(x, w, j, 0) + x[0] * pow(w, (j * 0) as nat));
        assert(dft_sum(x, w, j, 0) == 0);
        if j == 0 {
            assert(x[0] * pow(w, (j * 0) as nat) == x[0]) by (nonlinear_arith)
                requires
                    pow(w, (j * 0) as nat) == 1,
            ;
            assert(x[1] * pow(w, (j * 1) as nat) == x[1]) by (nonlinear_arith)
                requires
                    pow(w, (j * 1) as nat) == 1,
            ;
            assert(dft_sum(x, w, j, 2) == x[0] + x[1]);
        } else {
            assert(x[0] * pow(w, (j * 0) as nat) == x[0]) by (nonlinear_arith)
                requires
                    pow(w, (j * 0) as nat) == 1,
            ;
            assert(x[1] * pow(w, (j * 1) as nat) == w * x[1]) by (nonlinear_arith)
                requires
                    pow(w, (j * 1) as nat) == w,
            ;
            assert(dft_sum(x, w, j, 2) == x[0] + w * x[1]);
        }
    } else {
        let h = n as int / 2;
        let w2v = (w * w) % q;
        let pw = pow(w, j as nat);
        lemma_mod_bound(w * w, q);
        // the squared root has the halved order
        lemma_pow_double(w, h);
        lemma_pow_mod_noop(w * w, h as nat, q);
        assert(pow(w2v, h as nat) % q == 1);
        assert(evens(x).len() == h && odds(x).len() == h);
        let e = dft_sum(evens(x), w2v, j, h as nat);
        let o = dft_sum(odds(x), w2v, j, h as nat);
        lemma_dft_split(x, w, q, j, h as nat);
        assert(dft_sum(x, w, j, n) % q == (e + pw * o) % q);
        if j < h {
            lemma_ntt_entry(evens(x), w2v, q, j);
            lemma_ntt_entry(odds(x), w2v, q, j);
            let ej = ntt_spec(evens(x), w2v, q)[j];
            let oj = ntt_spec(odds(x), w2v, q)[j];
            assert(ntt_spec(x, w, q)[j] == (ej + oj * (pw % q)) % q);
            // reassemble the reduced pieces
            lemma_mul_mod_noop_general(o, pw, q);
            lemma_add_mod_noop_right(e % q, oj * (pw % q), q);
            lemma_add_mod_noop(e, o * pw, q);
            assert(o * pw == pw * o) by (nonlinear_arith);
        } else {
            let jr = j - h;
            lemma_ntt_entry(evens(x), w2v, q, jr);
            lemma_ntt_entry(odds(x), w2v, q, jr);
            let er = dft_sum(evens(x), w2v, jr, h as nat);
            let or = dft_sum(odds(x), w2v, jr, h as nat);
            lemma_dft_period(evens(x), w2v, q, jr, h, h as nat);
            lemma_dft_period(odds(x), w2v, q, jr, h, h as nat);
            assert(e % q == er % q && o % q == or % q);
            // replace the sums by their shifted forms
            lemma_mod_equivalence(e, er, q);
            lemma_scaled_congruent(o, or, pw, q);
            lemma_small_mod(0nat, q as nat);
            lemma_divides_linear(q, e - er, pw * (o - or), 1);
            assert(pw * (o - or) == pw * o - pw * or) by (nonlinear_arith);
            lemma_mod_equivalence(e + pw * o, er + pw * or, q);
            assert((e + pw * o) % q == (er + pw * or) % q);
            let ej = ntt_spec(evens(x), w2v, q)[jr];
            let oj = ntt_spec(odds(x), w2v, q)[jr];
            assert(ntt_spec(x, w, q)[j] == (ej + oj * (pw % q)) % q);
            lemma_mul_mod_noop_general(or, pw, q);
            lemma_add_mod_noop_right(er % q, oj * (pw % q), q);
            lemma_add_mod_noop(er, or * pw, q);
            assert(or * pw == pw * or) by (nonlinear_arith);
        }
    }
}


/// Round trip of the transform pair: over a prime field whose modulus
/// does not divide the sequence length, inverse-transforming the forward
/// transform of a sequence under a primitive root of unity of the order
/// of the length gives back the sequence.
pub proof fn lemma_transform_round_trip(x: Seq<int>, w: int, q: int)
    requires
        is_prime(q),
        0 <= w < q,
        x.len() >= 2,
        is_pow2(x.len() as int),
        forall|i: int| 0 <= i < x.len() ==> 0 <= #[trigger] x[i] < q,
        pow(w, x.len() as nat) % q == 1,
        forall|m: int| 0 < m < x.len() ==> #[trigger] pow(w, m as nat) % q != 1,
        (x.len() as int) % q != 0,
    ensures
        intt_spec(ntt_spec(x, w, q), w, q) == x,
{
    let n = x.len();
    let ni = n as int;
    // the root is invertible
    if w == 0 {
        vstd::arithmetic::power::lemma0_pow(n);
        lemma_small_mod(0nat, q as nat);
        assert(false);
    }
    lemma_prime_coprime(q, w);
    lemma_inverse_exists(w, q);
    let wiv = mod_inverse(w, q);
    // so is the length
    lemma_mod_bound(ni, q);
    lemma_prime_coprime(q, ni % q);
    lemma_inverse_exists(ni % q, q);
    let ninv = mod_inverse(ni % q, q);
    // the inverse root also has order n
    lemma_pow_inverse_one(w, wiv, q, n);
    assert(pow(wiv, n) % q == 1) by {
        let aa = pow(w, n);
        let bb = pow(wiv, n);
        lemma_mul_mod_noop_general(bb, aa, q);
        assert(aa * bb == bb * aa) by (nonlinear_arith);
        assert((bb % q) * (aa % q) == bb % q) by (nonlinear_arith)
            requires
                aa % q == 1,
        ;
        lemma_mod_bound(bb, q);
        lemma_small_mod((bb % q) as nat, q as nat);
    }
    let y = ntt_spec(x, w, q);
    assert(y.len() == n);
    assert forall|j: int| 0 <= j < n implies #[trigger] y[j] == dft_sum(x, w, j, n) % q by {
        lemma_ntt_entry(x, w, q, j);
    }
    let z = intt_spec(y, w, q);
    assert(z.len() == n);
    assert forall|l: int| 0 <= l < n implies #[trigger] z[l] == x[l] by {
        lemma_ntt_entry(y, wiv, q, l);
        let sl = ntt_spec(y, wiv, q)[l];
        lemma_outer_matches(x, y, w, wiv, q, l, n);
        lemma_sum_exchange(x, w, wiv, l, n);
        lemma_paired_value(x, w, wiv, q, l, n, n);
        assert(sl == (x[l] * ni) % q);
        // scaling by the inverse of the length isolates the entry
        lemma_mul_mod_noop_general(x[l] * ni, ninv, q);
        assert((sl * ninv) % q == ((x[l] * ni) * ninv) % q);
        assert((x[l] * ni) * ninv == x[l] * (ni * ninv)) by (nonlinear_arith);
        lemma_mul_mod_noop_general(ni, ninv, q);
        assert((ni % q) * ninv == ninv * (ni % q)) by (nonlinear_arith);
        assert((ni * ninv) % q == 1);
        lemma_mul_mod_noop_general(x[l], ni * ninv, q);
        assert(x[l] * ((ni * ninv) % q) == x[l]) by (nonlinear_arith)
            requires
                (ni * ninv) % q == 1,
        ;
        lemma_mod_bound(x[l], q);
        lemma_small_mod(x[l] as nat, q as nat);
        assert(z[l] == (sl * ninv) % q);
    }
    assert(z =~= x);
}

} // verus!
