//! The finite-field spectral transforms: the two-point base transform, the
//! recursive Cooley-Tukey forward transform, and its exact inverse.

use vstd::prelude::*;
use vstd::arithmetic::div_mod::lemma_add_mod_noop_right;
use vstd::arithmetic::power::pow;
use crate::number_theory::{gcd, mod_inverse};
use crate::prime_field_element::{add_raw, mul_raw, PrimeFieldElement};
use crate::TransformError;

verus! {

/// The integer residues a sequence of field elements carries.
pub open spec fn values(s: Seq<PrimeFieldElement>) -> Seq<int> {
    s.map(|i: int, e: PrimeFieldElement| e.value as int)
}

/// Every element is well formed and carries the modulus `q`.
pub open spec fn all_in_field(s: Seq<PrimeFieldElement>, q: int) -> bool {
    forall|i: int| 0 <= i < s.len() ==> (#[trigger] s[i]).valid() && s[i].field.q == q
}

/// The even-indexed entries of a sequence.
pub open spec fn evens<A>(s: Seq<A>) -> Seq<A> {
    Seq::new(((s.len() + 1) / 2) as nat, |i: int| s[2 * i])
}

/// The odd-indexed entries of a sequence.
pub open spec fn odds<A>(s: Seq<A>) -> Seq<A> {
    Seq::new((s.len() / 2) as nat, |i: int| s[2 * i + 1])
}

/// A valid transform length: a power of two.
pub open spec fn is_pow2(n: int) -> bool
    decreases n,
{
    if n <= 0 {
        false
    } else if n == 1 {
        true
    } else {
        n % 2 == 0 && is_pow2(n / 2)
    }
}

/// The forward transform of the residues `x` under the root `w`, by the
/// Cooley-Tukey recurrence: the two-point transform at the base; above it
/// the split by parity, the halves transformed under the squared root, and
/// the recombination through the twiddle factors `w^j`.
pub open spec fn ntt_spec(x: Seq<int>, w: int, q: int) -> Seq<int>
    decreases x.len(),
{
    if x.len() <= 2 {
        seq![(x[0] + x[1]) % q, (x[0] + w * x[1]) % q]
    } else {
        let e = ntt_spec(evens(x), (w * w) % q, q);
        let o = ntt_spec(odds(x), (w * w) % q, q);
        let h = x.len() as int / 2;
        Seq::new(
            x.len(),
            |j: int|
                if j < h {
                    (e[j] + o[j] * (pow(w, j as nat) % q)) % q
                } else {
                    (e[j - h] + o[j - h] * (pow(w, j as nat) % q)) % q
                },
        )
    }
}

/// The inverse transform: the forward transform under the inverse root,
/// scaled by the inverse of the length.
pub open spec fn intt_spec(x: Seq<int>, w: int, q: int) -> Seq<int> {
    let s = ntt_spec(x, mod_inverse(w, q), q);
    let ninv = mod_inverse((x.len() as int) % q, q);
    s.map(|i: int, v: int| (v * ninv) % q)
}

/// The two-point transform: `y[0] = x[0] + x[1]` and
/// `y[1] = x[0] + omega * x[1]`, the base case of the recursion.
pub fn dft_finite_fields(x: &Vec<PrimeFieldElement>, omega: &PrimeFieldElement) -> (y: Vec<
    PrimeFieldElement,
>)
    requires
        x@.len() == 2,
        omega.valid(),
        all_in_field(x@, omega.field.q as int),
    ensures
        y@.len() == 2,
        all_in_field(y@, omega.field.q as int),
        values(y@) == ntt_spec(values(x@), omega.value as int, omega.field.q as int),
{
    let mut y: Vec<PrimeFieldElement> = Vec::new();
    y.push(add_raw(x[0], x[1]));
    y.push(add_raw(x[0], mul_raw(*omega, x[1])));
    proof {
        let qi = omega.field.q as int;
        lemma_add_mod_noop_right(x@[0].value as int, (omega.value as int) * (x@[1].value as int), qi);
        assert(values(y@) =~= ntt_spec(values(x@), omega.value as int, qi));
    }
    y
}

/// Whether a sequence of this length can be transformed: at least two
/// entries, and a power of two of them.
fn usable_length(n: usize) -> (b: bool)
    ensures
        b == (n >= 2 && is_pow2(n as int)),
{
    if n < 2 {
        return false;
    }
    let mut m = n;
    while m > 2
        invariant
            2 <= m <= n,
            is_pow2(n as int) == is_pow2(m as int),
        decreases m,
    {
        if m % 2 == 1 {
            proof {
                assert(!is_pow2(m as int));
            }
            return false;
        }
        m = m / 2;
    }
    proof {
        assert(is_pow2(1int));
        assert(is_pow2(2int));
    }
    true
}

/// The forward Number-Theoretic Transform. The caller supplies a primitive
/// root of unity of the order of the sequence length; the sequence length
/// must be a power of two of at least two, else the call fails with
/// `InvalidLength`.
#[verifier::loop_isolation(false)]
pub fn ntt_fft(x: Vec<PrimeFieldElement>, omega: &PrimeFieldElement) -> (r: Result<
    Vec<PrimeFieldElement>,
    TransformError,
>)
    requires
        omega.valid(),
        all_in_field(x@, omega.field.q as int),
    ensures
        r is Ok <==> (x@.len() >= 2 && is_pow2(x@.len() as int)),
        r matches Ok(y) ==> {
            &&& y@.len() == x@.len()
            &&& all_in_field(y@, omega.field.q as int)
            &&& values(y@) == ntt_spec(values(x@), omega.value as int, omega.field.q as int)
        },
        r matches Err(e) ==> e == TransformError::InvalidLength,
    decreases x@.len(),
{
    let ghost qi = omega.field.q as int;
    let ghost w = omega.value as int;
    let size = x.len();
    if size < 2 || size % 2 == 1 {
        proof {
            if size >= 2 {
                assert(!is_pow2(size as int));
            }
        }
        return Err(TransformError::InvalidLength);
    }
    if size == 2 {
        proof {
            assert(is_pow2(1int));
            assert(is_pow2(2int));
        }
        return Ok(dft_finite_fields(&x, omega));
    }
    // split by parity
    let half = size / 2;
    let mut x_even: Vec<PrimeFieldElement> = Vec::new();
    let mut x_odd: Vec<PrimeFieldElement> = Vec::new();
    let mut i: usize = 0;
    while i < half
        invariant
            0 <= i <= half,
            x_even@.len() == i,
            x_odd@.len() == i,
            forall|k: int| 0 <= k < i ==> (#[trigger] x_even@[k]) == x@[2 * k],
            forall|k: int| 0 <= k < i ==> (#[trigger] x_odd@[k]) == x@[2 * k + 1],
        decreases half - i,
    {
        x_even.push(x[2 * i]);
        x_odd.push(x[2 * i + 1]);
        i = i + 1;
    }
    proof {
        assert(values(x_even@) =~= evens(values(x@)));
        assert(values(x_odd@) =~= odds(values(x@)));
        assert(all_in_field(x_even@, qi));
        assert(all_in_field(x_odd@, qi));
    }
    let omega_sq = mul_raw(*omega, *omega);
    let even = match ntt_fft(x_even, &omega_sq) {
        Ok(v) => v,
        Err(e) => {
            proof {
                assert(!is_pow2(size as int));
            }
            return Err(e);
        },
    };
    let odd = match ntt_fft(x_odd, &omega_sq) {
        Ok(v) => v,
        Err(e) => {
            proof {
                assert(false);
            }
            return Err(e);
        },
    };
    proof {
        assert(is_pow2(size as int));
    }
    // all twiddle factors omega^j, for j = 0..size
    let mut factors: Vec<PrimeFieldElement> = Vec::new();
    let mut j: usize = 0;
    while j < size
        invariant
            0 <= j <= size,
            factors@.len() == j,
            forall|k: int|
                0 <= k < j ==> {
                    &&& (#[trigger] factors@[k]).valid()
                    &&& factors@[k].field.q == qi
                    &&& factors@[k].value == pow(w, k as nat) % qi
                },
        decreases size - j,
    {
        match omega.mod_pow(j as i128) {
            Ok(f) => {
                proof {
                    assert((j as i128) as nat == j as nat);
                }
                factors.push(f);
            },
            Err(e) => {
                proof {
                    assert(false);
                }
                return Err(e);
            },
        }
        j = j + 1;
    }
    // recombine the halves through the twiddle factors
    let mut res: Vec<PrimeFieldElement> = Vec::new();
    let mut i: usize = 0;
    while i < half
        invariant
            0 <= i <= half,
            res@.len() == i,
            forall|k: int|
                0 <= k < i ==> {
                    &&& (#[trigger] res@[k]).valid()
                    &&& res@[k].field.q == qi
                    &&& res@[k].value == (even@[k].value + (odd@[k].value * factors@[k].value)
                        % qi) % qi
                },
        decreases half - i,
    {
        res.push(add_raw(even[i], mul_raw(odd[i], factors[i])));
        i = i + 1;
    }
    let mut i: usize = 0;
    while i < half
        invariant
            0 <= i <= half,
            res@.len() == half + i,
            forall|k: int|
                0 <= k < half ==> {
                    &&& (#[trigger] res@[k]).valid()
                    &&& res@[k].field.q == qi
                    &&& res@[k].value == (even@[k].value + (odd@[k].value * factors@[k].value)
                        % qi) % qi
                },
            forall|k: int|
                half <= k < half + i ==> {
                    &&& (#[trigger] res@[k]).valid()
                    &&& res@[k].field.q == qi
                    &&& res@[k].value == (even@[k - half].value + (odd@[k - half].value
                        * factors@[k].value) % qi) % qi
                },
        decreases half - i,
    {
        res.push(add_raw(even[i], mul_raw(odd[i], factors[half + i])));
        i = i + 1;
    }
    proof {
        let vx = values(x@);
        let e = ntt_spec(evens(vx), (w * w) % qi, qi);
        let o = ntt_spec(odds(vx), (w * w) % qi, qi);
        assert(e == values(even@));
        assert(o == values(odd@));
        assert forall|j: int| 0 <= j < size implies values(res@)[j] == ntt_spec(vx, w, qi)[j] by {
            if j < half {
                lemma_add_mod_noop_right(
                    even@[j].value as int,
                    (odd@[j].value as int) * (factors@[j].value as int),
                    qi,
                );
            } else {
                lemma_add_mod_noop_right(
                    even@[j - half].value as int,
                    (odd@[j - half].value as int) * (factors@[j].value as int),
                    qi,
                );
            }
        }
        assert(values(res@) =~= ntt_spec(vx, w, qi));
    }
    Ok(res)
}

/// The inverse Number-Theoretic Transform: the forward transform under the
/// inverse root, scaled by the inverse of the length. Fails with
/// `InvalidLength` on a length that is not a power of two of at least two,
/// and with `NotInvertible` when the root or the length has no inverse
/// modulo the field modulus.
#[verifier::loop_isolation(false)]
pub fn intt_fft(x: Vec<PrimeFieldElement>, omega: &PrimeFieldElement) -> (r: Result<
    Vec<PrimeFieldElement>,
    TransformError,
>)
    requires
        omega.valid(),
        all_in_field(x@, omega.field.q as int),
    ensures
        r is Ok <==> {
            &&& x@.len() >= 2
            &&& is_pow2(x@.len() as int)
            &&& gcd(omega.field.q as int, omega.value as int) == 1
            &&& gcd(omega.field.q as int, (x@.len() as int) % (omega.field.q as int)) == 1
        },
        r matches Ok(y) ==> {
            &&& y@.len() == x@.len()
            &&& all_in_field(y@, omega.field.q as int)
            &&& values(y@) == intt_spec(values(x@), omega.value as int, omega.field.q as int)
        },
        r matches Err(e) ==> if !(x@.len() >= 2 && is_pow2(x@.len() as int)) {
            e == TransformError::InvalidLength
        } else {
            e == TransformError::NotInvertible
        },
{
    let ghost qi = omega.field.q as int;
    let ghost w = omega.value as int;
    let size = x.len();
    if !usable_length(size) {
        return Err(TransformError::InvalidLength);
    }
    let omega_inv = match omega.inv() {
        Ok(v) => v,
        Err(e) => {
            return Err(e);
        },
    };
    let length = PrimeFieldElement::new(size as i128, &omega.field);
    let length_inv = match length.inv() {
        Ok(v) => v,
        Err(e) => {
            return Err(e);
        },
    };
    let scaled = match ntt_fft(x, &omega_inv) {
        Ok(v) => v,
        Err(e) => {
            proof {
                assert(false);
            }
            return Err(e);
        },
    };
    let mut res: Vec<PrimeFieldElement> = Vec::new();
    let mut i: usize = 0;
    while i < size
        invariant
            0 <= i <= size,
            res@.len() == i,
            forall|k: int|
                0 <= k < i ==> {
                    &&& (#[trigger] res@[k]).valid()
                    &&& res@[k].field.q == qi
                    &&& res@[k].value == (scaled@[k].value * length_inv.value) % qi
                },
        decreases size - i,
    {
        res.push(mul_raw(scaled[i], length_inv));
        i = i + 1;
    }
    proof {
        assert(values(res@) =~= intt_spec(values(x@), w, qi));
    }
    Ok(res)
}

} // verus!
