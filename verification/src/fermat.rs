//! Fermat's little theorem, by the permutation-of-residues argument, and
//! with it the range of the quadratic-residue classifier.

use vstd::prelude::*;
use vstd::arithmetic::div_mod::{
    lemma_fundamental_div_mod_converse_mod, lemma_mod_bound, lemma_mul_mod_noop_general,
    lemma_small_mod, lemma_sub_mod_noop,
};
use vstd::arithmetic::power::{lemma_pow0, lemma_pow1, lemma_pow_adds, pow};
use crate::number_theory::{is_prime, lemma_euclid, lemma_self_inverse_root};

verus! {

/// The product of the entries of a sequence, reduced modulo `p`; one for
/// the empty sequence.
spec fn seq_prod_mod(s: Seq<int>, p: int) -> int
    decreases s.len(),
{
    if s.len() == 0 {
        1
    } else {
        (seq_prod_mod(s.drop_last(), p) * s.last()) % p
    }
}

/// Appending an entry multiplies the product by it.
proof fn lemma_prod_push(s: Seq<int>, v: int, p: int)
    ensures
        seq_prod_mod(s.push(v), p) == (seq_prod_mod(s, p) * v) % p,
{
    assert(s.push(v).drop_last() =~= s);
    assert(s.push(v).last() == v);
}

/// Removing an entry divides the product by it: the product equals the
/// product of the rest times the removed entry.
proof fn lemma_prod_remove(s: Seq<int>, i: int, p: int)
    requires
        p > 1,
        0 <= i < s.len(),
    ensures
        seq_prod_mod(s, p) == (seq_prod_mod(s.remove(i), p) * s[i]) % p,
    decreases s.len(),
{
    if i == s.len() - 1 {
        assert(s.remove(i) =~= s.drop_last());
    } else {
        let t = s.drop_last();
        let v = s.last();
        lemma_prod_remove(t, i, p);
        assert(s.remove(i) =~= t.remove(i).push(v));
        lemma_prod_push(t.remove(i), v, p);
        let r = seq_prod_mod(t.remove(i), p);
        // both sides reduce to (r * s[i] * v) % p
        lemma_mul_mod_noop_general(r * s[i], v, p);
        lemma_mul_mod_noop_general(r * v, s[i], p);
        assert((r * s[i]) * v == (r * v) * s[i]) by (nonlinear_arith);
    }
}

/// The residues `a * 1, a * 2, ..., a * (p - 1)` modulo `p`.
spec fn residue_table(a: int, p: int) -> Seq<int> {
    Seq::new((p - 1) as nat, |i: int| (a * (i + 1)) % p)
}

/// The residues `1, 2, ..., p - 1` themselves.
spec fn base_residues(p: int) -> Seq<int> {
    Seq::new((p - 1) as nat, |i: int| i + 1)
}

/// Every entry of the residue table is a nonzero residue.
proof fn lemma_table_entries(a: int, p: int)
    requires
        is_prime(p),
        0 < a < p,
    ensures
        forall|i: int|
            0 <= i < p - 1 ==> 0 < #[trigger] residue_table(a, p)[i] < p,
{
    assert forall|i: int| 0 <= i < p - 1 implies 0 < #[trigger] residue_table(a, p)[i] < p by {
        lemma_mod_bound(a * (i + 1), p);
        if (a * (i + 1)) % p == 0 {
            lemma_euclid(p, a, i + 1);
            lemma_small_mod((i + 1) as nat, p as nat);
        }
    }
}

/// Distinct multiples of a unit stay distinct modulo `p`.
proof fn lemma_table_no_duplicates(a: int, p: int)
    requires
        is_prime(p),
        0 < a < p,
    ensures
        residue_table(a, p).no_duplicates(),
{
    let s = residue_table(a, p);
    assert forall|i: int, j: int| 0 <= i < s.len() && 0 <= j < s.len() && i != j implies s[i]
        != s[j] by {
        if s[i] == s[j] {
            let lo = if i < j { i } else { j };
            let hi = if i < j { j } else { i };
            lemma_sub_mod_noop(a * (hi + 1), a * (lo + 1), p);
            lemma_small_mod(0nat, p as nat);
            assert(a * (hi + 1) - a * (lo + 1) == a * (hi - lo)) by (nonlinear_arith);
            assert((a * (hi - lo)) % p == 0);
            lemma_euclid(p, a, hi - lo);
            lemma_small_mod((hi - lo) as nat, p as nat);
        }
    }
}

/// The residue table permutes the nonzero residues.
proof fn lemma_table_permutes(a: int, p: int)
    requires
        is_prime(p),
        0 < a < p,
    ensures
        residue_table(a, p).to_multiset() == base_residues(p).to_multiset(),
{
    broadcast use vstd::seq_lib::seq_to_set_is_finite;
    broadcast use vstd::set::group_set_axioms;

    let s = residue_table(a, p);
    let b = base_residues(p);
    lemma_table_entries(a, p);
    lemma_table_no_duplicates(a, p);
    assert(b.no_duplicates());
    // as sets, the table lies inside the nonzero residues
    assert forall|v: int| #[trigger] s.to_set().contains(v) implies b.to_set().contains(v) by {
        let i = choose|i: int| 0 <= i < s.len() && s[i] == v;
        assert(0 < v < p);
        assert(b[v - 1] == v);
        assert(b.contains(v));
    }
    assert(s.to_set().subset_of(b.to_set()));
    // both sets have as many members as the sequences have entries
    s.unique_seq_to_set();
    b.unique_seq_to_set();
    // a strict inclusion would contradict the equal counts
    assert forall|v: int| #[trigger] b.to_set().contains(v) implies s.to_set().contains(v) by {
        if !s.to_set().contains(v) {
            s.to_set().lemma_subset_not_in_lt(b.to_set(), v);
        }
    }
    assert(s.to_set() =~= b.to_set());
    // with neither sequence repeating an entry, equal sets give equal counts
    s.lemma_multiset_has_no_duplicates();
    b.lemma_multiset_has_no_duplicates();
    s.to_multiset_ensures();
    b.to_multiset_ensures();
    assert forall|v: int| #[trigger] s.to_multiset().count(v) == b.to_multiset().count(v) by {
        if s.contains(v) {
            assert(s.to_set().contains(v));
            assert(b.to_set().contains(v));
            assert(b.contains(v));
        } else {
            assert(s.to_multiset().count(v) == 0);
            if b.contains(v) {
                assert(s.to_set().contains(v));
            }
            assert(b.to_multiset().count(v) == 0);
        }
    }
    assert(s.to_multiset() =~= b.to_multiset());
}

/// The product depends only on the multiset of entries, not their order.
proof fn lemma_prod_permutation(s: Seq<int>, t: Seq<int>, p: int)
    requires
        p > 1,
        s.to_multiset() == t.to_multiset(),
    ensures
        seq_prod_mod(s, p) == seq_prod_mod(t, p),
    decreases s.len(),
{
    s.to_multiset_ensures();
    t.to_multiset_ensures();
    if s.len() == 0 {
        assert(t.len() == 0);
    } else {
        let v = s.last();
        assert(s.contains(v));
        assert(t.to_multiset().count(v) > 0);
        assert(t.contains(v));
        let j = choose|j: int| 0 <= j < t.len() && t[j] == v;
        lemma_prod_remove(t, j, p);
        assert(s.drop_last() =~= s.remove(s.len() - 1));
        assert(s.remove(s.len() - 1).to_multiset() == s.to_multiset().remove(v));
        assert(t.remove(j).to_multiset() == t.to_multiset().remove(v));
        lemma_prod_permutation(s.drop_last(), t.remove(j), p);
    }
}

/// A product of nonzero residues of a prime modulus is a nonzero residue.
proof fn lemma_prod_nonzero(s: Seq<int>, p: int)
    requires
        is_prime(p),
        forall|i: int| 0 <= i < s.len() ==> 0 < #[trigger] s[i] < p,
    ensures
        0 < seq_prod_mod(s, p) < p,
    decreases s.len(),
{
    if s.len() > 0 {
        lemma_prod_nonzero(s.drop_last(), p);
        let f = seq_prod_mod(s.drop_last(), p);
        let v = s.last();
        lemma_mod_bound(f * v, p);
        if (f * v) % p == 0 {
            assert(f * v == v * f) by (nonlinear_arith);
            lemma_euclid(p, v, f);
            lemma_small_mod(f as nat, p as nat);
        }
    }
}

/// The product of the table entries carries one factor of `a` for each
/// entry: it is `a^k` times the product of `1, ..., k`.
proof fn lemma_table_prod(a: int, p: int, k: int)
    requires
        p > 1,
        0 < a < p,
        0 <= k <= p - 1,
    ensures
        seq_prod_mod(residue_table(a, p).take(k), p) == (pow(a, k as nat) * seq_prod_mod(
            base_residues(p).take(k),
            p,
        )) % p,
    decreases k,
{
    let s = residue_table(a, p);
    let b = base_residues(p);
    if k == 0 {
        assert(s.take(0) =~= Seq::<int>::empty());
        assert(b.take(0) =~= Seq::<int>::empty());
        lemma_pow0(a);
        lemma_small_mod(1nat, p as nat);
    } else {
        lemma_table_prod(a, p, k - 1);
        let sk = s.take(k - 1);
        let bk = b.take(k - 1);
        assert(s.take(k) =~= sk.push(s[k - 1]));
        assert(b.take(k) =~= bk.push(b[k - 1]));
        lemma_prod_push(sk, s[k - 1], p);
        lemma_prod_push(bk, b[k - 1], p);
        let x = pow(a, (k - 1) as nat) * seq_prod_mod(bk, p);
        // both sides reduce to (a^(k-1) * prod * a * k) % p
        lemma_mul_mod_noop_general(x, a * k, p);
        lemma_mul_mod_noop_general(pow(a, k as nat), seq_prod_mod(bk, p) * k, p);
        lemma_pow1(a);
        lemma_pow_adds(a, 1nat, (k - 1) as nat);
        let u = pow(a, (k - 1) as nat);
        let w = seq_prod_mod(bk, p);
        assert((u * w) * (a * k) == (a * u) * (w * k)) by (nonlinear_arith);
        assert(x * (a * k) == pow(a, k as nat) * (seq_prod_mod(bk, p) * k));
    }
}

/// Fermat's little theorem: over a prime modulus, every nonzero residue
/// raised to the order of the group of units gives one.
pub proof fn lemma_fermat_little(a: int, p: int)
    requires
        is_prime(p),
        0 < a < p,
    ensures
        pow(a, (p - 1) as nat) % p == 1,
{
    let s = residue_table(a, p);
    let b = base_residues(p);
    lemma_table_prod(a, p, p - 1);
    assert(s.take(p - 1) =~= s);
    assert(b.take(p - 1) =~= b);
    lemma_table_permutes(a, p);
    lemma_prod_permutation(s, b, p);
    let f = seq_prod_mod(b, p);
    assert(forall|i: int| 0 <= i < b.len() ==> 0 < #[trigger] b[i] < p);
    lemma_prod_nonzero(b, p);
    // f == (pow(a, p - 1) * f) % p, and f is a unit, so the power is one
    let e = pow(a, (p - 1) as nat) % p;
    lemma_mod_bound(pow(a, (p - 1) as nat), p);
    lemma_mul_mod_noop_general(pow(a, (p - 1) as nat), f, p);
    lemma_small_mod(f as nat, p as nat);
    assert((e * f) % p == f);
    lemma_sub_mod_noop(e * f, f, p);
    lemma_small_mod(0nat, p as nat);
    assert(e * f - f == f * (e - 1)) by (nonlinear_arith);
    assert((f * (e - 1)) % p == 0);
    lemma_euclid(p, f, e - 1);
    if e == 0 {
        lemma_fundamental_div_mod_converse_mod(-1, p, -1, p - 1);
    } else {
        lemma_small_mod((e - 1) as nat, p as nat);
    }
}

/// The quadratic-residue classifier of any element of a prime field is
/// zero, one, or the modulus less one.
pub proof fn lemma_legendre_symbol_range(a: int, q: int)
    requires
        is_prime(q),
        0 <= a < q,
    ensures
        pow(a, (((q - 1) as int) / 2) as nat) % q == 0 || pow(
            a,
            (((q - 1) as int) / 2) as nat,
        ) % q == 1 || pow(a, (((q - 1) as int) / 2) as nat) % q == q - 1,
{
    let m = (((q - 1) as int) / 2) as nat;
    if q == 2 {
        lemma_pow0(a);
        lemma_small_mod(1nat, 2nat);
    } else {
        // a prime above two is odd, so the exponent is at least one
        lemma_mod_bound(q, 2);
        assert(q % 2 != 0);
        assert(m >= 1);
        if a == 0 {
            vstd::arithmetic::power::lemma0_pow(m);
            lemma_small_mod(0nat, q as nat);
        } else {
            lemma_fermat_little(a, q);
            let v = pow(a, m) % q;
            lemma_mod_bound(pow(a, m), q);
            lemma_mul_mod_noop_general(pow(a, m), pow(a, m), q);
            lemma_pow_adds(a, m, m);
            assert(m + m == (q - 1) as nat);
            assert((v * v) % q == 1);
            if v != 1 {
                lemma_self_inverse_root(v, q);
            }
        }
    }
}

} // verus!
