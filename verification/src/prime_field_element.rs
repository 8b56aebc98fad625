//! Canonicalized modular integers over a prime modulus, with the
//! arithmetic the transforms depend on: addition, subtraction,
//! multiplication, division, modular inverse via the extended Euclidean
//! algorithm, modular exponentiation, and the quadratic-residue test.

use vstd::prelude::*;
use vstd::arithmetic::div_mod::{
    lemma_fundamental_div_mod, lemma_fundamental_div_mod_converse_mod,
    lemma_mod_add_multiples_vanish, lemma_mod_bound, lemma_mod_multiples_basic,
    lemma_mod_multiples_vanish, lemma_mod_self_0, lemma_mul_mod_noop_left,
    lemma_mul_mod_noop_right, lemma_small_mod,
};
use vstd::arithmetic::power::{
    lemma_pow0, lemma_pow1, lemma_pow_adds, lemma_pow_mod_noop, lemma_pow_multiplies, pow,
};
use vstd::math::abs;
use crate::number_theory::{gcd, lemma_inverse_exists, lemma_inverse_unique, mod_inverse};
use crate::TransformError;

verus! {

/// The largest modulus the engine accepts; the square of any residue
/// below this bound still fits in an `i128`.
pub const MAX_MODULUS: i128 = 0x4000_0000_0000_0000;

/// A prime field, identified by its modulus.
#[derive(Debug, Clone, Copy, PartialEq, Eq, Structural)]
pub struct PrimeField {
    pub q: i128,
}

impl PrimeField {
    /// A usable modulus: large enough to form a field, small enough that
    /// products of residues cannot overflow.
    pub open spec fn valid(self) -> bool {
        1 < self.q <= MAX_MODULUS
    }

    pub fn new(q: i128) -> (f: Self)
        requires
            1 < q <= MAX_MODULUS,
        ensures
            f.q == q,
            f.valid(),
    {
        Self { q }
    }
}

/// A residue in a prime field, always canonicalized into `[0, q)`.
#[derive(Debug, Clone, Copy, PartialEq, Eq, Structural)]
pub struct PrimeFieldElement {
    pub value: i128,
    pub field: PrimeField,
}

/// Reduces any integer into the canonical range `[0, q)`, agreeing with
/// the mathematical (Euclidean) remainder also for negative inputs.
fn canonicalize(a: i128, q: i128) -> (r: i128)
    requires
        1 < q <= MAX_MODULUS,
    ensures
        0 <= r < q,
        r == (a as int) % (q as int),
{
    let t: i128 = a % q;
    proof {
        let ai = a as int;
        let qi = q as int;
        if a >= 0 {
            lemma_mod_bound(ai, qi);
            lemma_mod_add_multiples_vanish(t as int, qi);
            lemma_small_mod((ai % qi) as nat, qi as nat);
        } else {
            lemma_mod_bound(-ai, qi);
            let u = (-ai) % qi;
            lemma_fundamental_div_mod(-ai, qi);
            let k = (-ai) / qi;
            if u == 0 {
                // a is a multiple of q, so both sides reduce to zero.
                assert(ai == (-k) * qi) by (nonlinear_arith)
                    requires
                        -ai == qi * k + u,
                        u == 0,
                ;
                lemma_mod_multiples_basic(-k, qi);
                lemma_mod_self_0(qi);
            } else {
                // -a == q * k + u, so a == q * (-k - 1) + (q - u).
                assert(ai == qi * (-k - 1) + (qi - u)) by (nonlinear_arith)
                    requires
                        -ai == qi * k + u,
                ;
                lemma_fundamental_div_mod_converse_mod(ai, qi, -k - 1, qi - u);
                lemma_small_mod((qi - u) as nat, qi as nat);
            }
        }
    }
    (t + q) % q
}

impl PrimeFieldElement {
    /// A well-formed element: a usable field and a canonical residue.
    pub open spec fn valid(self) -> bool {
        self.field.valid() && 0 <= self.value < self.field.q
    }

    /// Both operands carry the same modulus.
    pub open spec fn same_field(self, other: PrimeFieldElement) -> bool {
        self.field.q == other.field.q
    }

    /// Constructs the canonical residue of any integer, also a negative one.
    pub fn new(value: i128, field: &PrimeField) -> (e: Self)
        requires
            field.valid(),
        ensures
            e.field == *field,
            e.value == (value as int) % (field.q as int),
            e.valid(),
    {
        Self { value: canonicalize(value, field.q), field: *field }
    }

    /// Sum of two residues of one field, reduced modulo the modulus.
    pub fn add(self, other: Self) -> (r: Result<Self, TransformError>)
        requires
            self.valid(),
            other.valid(),
        ensures
            r is Ok <==> self.same_field(other),
            r matches Ok(c) ==> {
                &&& c.field == self.field
                &&& c.value == (self.value + other.value) % (self.field.q as int)
                &&& c.valid()
            },
            r matches Err(e) ==> e == TransformError::FieldMismatch,
    {
        if self.field.q != other.field.q {
            return Err(TransformError::FieldMismatch);
        }
        let v: i128 = (self.value + other.value) % self.field.q;
        proof {
            lemma_mod_bound(self.value + other.value, self.field.q as int);
        }
        Ok(Self { value: v, field: self.field })
    }

    /// Difference of two residues of one field, canonicalized nonnegative.
    pub fn sub(self, other: Self) -> (r: Result<Self, TransformError>)
        requires
            self.valid(),
            other.valid(),
        ensures
            r is Ok <==> self.same_field(other),
            r matches Ok(c) ==> {
                &&& c.field == self.field
                &&& c.value == (self.value - other.value) % (self.field.q as int)
                &&& c.valid()
            },
            r matches Err(e) ==> e == TransformError::FieldMismatch,
    {
        if self.field.q != other.field.q {
            return Err(TransformError::FieldMismatch);
        }
        Ok(Self { value: canonicalize(self.value - other.value, self.field.q), field: self.field })
    }

    /// Product of two residues of one field, reduced modulo the modulus.
    pub fn mul(self, other: Self) -> (r: Result<Self, TransformError>)
        requires
            self.valid(),
            other.valid(),
        ensures
            r is Ok <==> self.same_field(other),
            r matches Ok(c) ==> {
                &&& c.field == self.field
                &&& c.value == (self.value * other.value) % (self.field.q as int)
                &&& c.valid()
            },
            r matches Err(e) ==> e == TransformError::FieldMismatch,
    {
        if self.field.q != other.field.q {
            return Err(TransformError::FieldMismatch);
        }
        proof {
            assert(self.value * other.value < MAX_MODULUS * MAX_MODULUS) by (nonlinear_arith)
                requires
                    0 <= self.value < MAX_MODULUS,
                    0 <= other.value < MAX_MODULUS,
            ;
            assert(self.value * other.value >= 0) by (nonlinear_arith)
                requires
                    self.value >= 0,
                    other.value >= 0,
            ;
        }
        let v: i128 = (self.value * other.value) % self.field.q;
        proof {
            lemma_mod_bound(self.value * other.value, self.field.q as int);
        }
        Ok(Self { value: v, field: self.field })
    }

    /// Quotient of two residues of one field: the dividend times the
    /// canonical inverse of the divisor. Fails on a divisor with no
    /// inverse, zero included.
    pub fn div(self, other: Self) -> (r: Result<Self, TransformError>)
        requires
            self.valid(),
            other.valid(),
        ensures
            r is Ok <==> (self.same_field(other) && gcd(self.field.q as int, other.value as int)
                == 1),
            r matches Ok(c) ==> {
                &&& c.field == self.field
                &&& c.valid()
                &&& c.value == (self.value * mod_inverse(other.value as int, self.field.q as int))
                    % (self.field.q as int)
            },
            r matches Err(e) ==> if self.same_field(other) {
                e == TransformError::NotInvertible
            } else {
                e == TransformError::FieldMismatch
            },
    {
        if self.field.q != other.field.q {
            return Err(TransformError::FieldMismatch);
        }
        match other.inv() {
            Err(e) => Err(e),
            Ok(i) => Ok(mul_raw(self, i)),
        }
    }

    /// The canonical inverse, computed from the Bezout coefficient that the
    /// extended Euclidean algorithm yields for the element. Fails on an
    /// element not coprime to the modulus, zero included.
    pub fn inv(&self) -> (r: Result<Self, TransformError>)
        requires
            self.valid(),
        ensures
            r is Ok <==> gcd(self.field.q as int, self.value as int) == 1,
            r matches Ok(c) ==> {
                &&& c.field == self.field
                &&& c.valid()
                &&& (c.value * self.value) % (self.field.q as int) == 1
                &&& c.value == mod_inverse(self.value as int, self.field.q as int)
            },
            r matches Err(e) ==> e == TransformError::NotInvertible,
    {
        let (g, s, t) = Self::egcd(self.field.q, self.value);
        if g != 1 {
            return Err(TransformError::NotInvertible);
        }
        let v = canonicalize(t, self.field.q);
        proof {
            let qi = self.field.q as int;
            let vi = self.value as int;
            assert((t as int) * vi == qi * (-(s as int)) + 1) by (nonlinear_arith)
                requires
                    (s as int) * qi + (t as int) * vi == 1,
            ;
            lemma_mod_multiples_vanish(-(s as int), 1, qi);
            lemma_small_mod(1nat, qi as nat);
            lemma_mul_mod_noop_left(t as int, vi, qi);
            assert(((v as int) * vi) % qi == 1);
            lemma_inverse_exists(vi, qi);
            lemma_inverse_unique(v as int, mod_inverse(vi, qi), vi, qi);
        }
        Ok(Self { value: v, field: self.field })
    }

    /// The extended Euclidean algorithm: a gcd together with Bezout
    /// coefficients, so that `s * x + t * y == g == gcd(x, y)`.
    pub fn egcd(x: i128, y: i128) -> (r: (i128, i128, i128))
        requires
            0 <= x <= MAX_MODULUS,
            0 <= y <= MAX_MODULUS,
        ensures
            ({
                let (g, s, t) = r;
                &&& g == gcd(x as int, y as int)
                &&& (s as int) * (x as int) + (t as int) * (y as int) == g
            }),
    {
        let mut xx = x;
        let mut yy = y;
        let mut a0: i128 = 1;
        let mut a1: i128 = 0;
        let mut b0: i128 = 0;
        let mut b1: i128 = 1;
        while yy != 0
            invariant
                0 <= x <= MAX_MODULUS,
                0 <= y <= MAX_MODULUS,
                0 <= xx <= MAX_MODULUS,
                0 <= yy <= MAX_MODULUS,
                gcd(xx as int, yy as int) == gcd(x as int, y as int),
                (a0 as int) * (x as int) + (b0 as int) * (y as int) == xx,
                (a1 as int) * (x as int) + (b1 as int) * (y as int) == yy,
                (a0 as int) * (a1 as int) <= 0,
                (b0 as int) * (b1 as int) <= 0,
                abs(a1 as int) * (xx as int) + abs(a0 as int) * (yy as int) == y,
                abs(b1 as int) * (xx as int) + abs(b0 as int) * (yy as int) == x,
            decreases yy,
        {
            let q = xx / yy;
            let r = xx % yy;
            proof {
                let qi = q as int;
                let xi = xx as int;
                let yi = yy as int;
                lemma_fundamental_div_mod(xi, yi);
                assert(qi * yi <= xi) by (nonlinear_arith)
                    requires
                        xi == yi * qi + (xi % yi),
                        xi % yi >= 0,
                ;
                // The coefficient magnitudes stay within the starting values
                // of x and y, so the updates below cannot overflow.
                assert(abs(a0 as int) <= y as int && qi * abs(a1 as int) <= y as int)
                    by (nonlinear_arith)
                    requires
                        abs(a1 as int) * xi + abs(a0 as int) * yi == y as int,
                        qi * yi <= xi,
                        yi >= 1,
                        xi >= 0,
                        qi >= 0,
                ;
                assert(abs(b0 as int) <= x as int && qi * abs(b1 as int) <= x as int)
                    by (nonlinear_arith)
                    requires
                        abs(b1 as int) * xi + abs(b0 as int) * yi == x as int,
                        qi * yi <= xi,
                        yi >= 1,
                        xi >= 0,
                        qi >= 0,
                ;
                assert(-(y as int) <= qi * (a1 as int) <= y as int) by (nonlinear_arith)
                    requires
                        qi * abs(a1 as int) <= y as int,
                        abs(a1 as int) >= a1 as int,
                        abs(a1 as int) >= -(a1 as int),
                        qi >= 0,
                ;
                assert(-(x as int) <= qi * (b1 as int) <= x as int) by (nonlinear_arith)
                    requires
                        qi * abs(b1 as int) <= x as int,
                        abs(b1 as int) >= b1 as int,
                        abs(b1 as int) >= -(b1 as int),
                        qi >= 0,
                ;
            }
            let c = a0 - q * a1;
            let d = b0 - q * b1;
            proof {
                let qi = q as int;
                let xi = xx as int;
                let yi = yy as int;
                let ri = r as int;
                assert(gcd(xi, yi) == gcd(yi, xi % yi));
                assert((c as int) * (x as int) + (d as int) * (y as int) == ri)
                    by (nonlinear_arith)
                    requires
                        (a0 as int) * (x as int) + (b0 as int) * (y as int) == xi,
                        (a1 as int) * (x as int) + (b1 as int) * (y as int) == yi,
                        c as int == a0 as int - qi * (a1 as int),
                        d as int == b0 as int - qi * (b1 as int),
                        ri == xi - qi * yi,
                ;
                assert((a1 as int) * (c as int) <= 0 && abs(c as int) == abs(a0 as int) + qi
                    * abs(a1 as int)) by (nonlinear_arith)
                    requires
                        (a0 as int) * (a1 as int) <= 0,
                        c as int == a0 as int - qi * (a1 as int),
                        qi >= 0,
                ;
                assert((b1 as int) * (d as int) <= 0 && abs(d as int) == abs(b0 as int) + qi
                    * abs(b1 as int)) by (nonlinear_arith)
                    requires
                        (b0 as int) * (b1 as int) <= 0,
                        d as int == b0 as int - qi * (b1 as int),
                        qi >= 0,
                ;
                assert(abs(c as int) * yi + abs(a1 as int) * ri == y as int) by (nonlinear_arith)
                    requires
                        abs(a1 as int) * xi + abs(a0 as int) * yi == y as int,
                        abs(c as int) == abs(a0 as int) + qi * abs(a1 as int),
                        ri == xi - qi * yi,
                ;
                assert(abs(d as int) * yi + abs(b1 as int) * ri == x as int) by (nonlinear_arith)
                    requires
                        abs(b1 as int) * xi + abs(b0 as int) * yi == x as int,
                        abs(d as int) == abs(b0 as int) + qi * abs(b1 as int),
                        ri == xi - qi * yi,
                ;
            }
            xx = yy;
            yy = r;
            a0 = a1;
            a1 = c;
            b0 = b1;
            b1 = d;
        }
        (xx, a0, b0)
    }

    /// Binary (square-and-multiply) modular exponentiation. An exponent of
    /// zero yields the multiplicative identity for every base; a negative
    /// exponent is rejected.
    pub fn mod_pow(&self, exponent: i128) -> (r: Result<Self, TransformError>)
        requires
            self.valid(),
        ensures
            r is Ok <==> exponent >= 0,
            r matches Ok(c) ==> {
                &&& c.field == self.field
                &&& c.valid()
                &&& c.value == pow(self.value as int, exponent as nat) % (self.field.q as int)
                &&& (exponent == 0 ==> c.value == 1)
            },
            r matches Err(e) ==> e == TransformError::InvalidExponent,
    {
        if exponent < 0 {
            return Err(TransformError::InvalidExponent);
        }
        proof {
            lemma_pow0(self.value as int);
            lemma_small_mod(1nat, self.field.q as nat);
        }
        Ok(Self { value: pow_raw(self.value, exponent, self.field.q), field: self.field })
    }

    /// The quadratic-residue classifier `value ^ ((q - 1) / 2) mod q`: zero
    /// for zero, one for a residue, `q - 1` for a non-residue when the
    /// modulus is prime.
    pub fn legendre_symbol(&self) -> (r: i128)
        requires
            self.valid(),
        ensures
            r == pow(self.value as int, (((self.field.q - 1) as int) / 2) as nat) % (
            self.field.q as int),
            0 <= r < self.field.q,
    {
        pow_raw(self.value, (self.field.q - 1) / 2, self.field.q)
    }
}

/// Sum of two residues known to share a field; total, for internal use.
pub(crate) fn add_raw(a: PrimeFieldElement, b: PrimeFieldElement) -> (c: PrimeFieldElement)
    requires
        a.valid(),
        b.valid(),
        a.same_field(b),
    ensures
        c.field == a.field,
        c.valid(),
        c.value == (a.value + b.value) % (a.field.q as int),
{
    let v: i128 = (a.value + b.value) % a.field.q;
    proof {
        lemma_mod_bound(a.value + b.value, a.field.q as int);
    }
    PrimeFieldElement { value: v, field: a.field }
}

/// Product of two residues known to share a field; total, for internal use.
pub(crate) fn mul_raw(a: PrimeFieldElement, b: PrimeFieldElement) -> (c: PrimeFieldElement)
    requires
        a.valid(),
        b.valid(),
        a.same_field(b),
    ensures
        c.field == a.field,
        c.valid(),
        c.value == (a.value * b.value) % (a.field.q as int),
{
    proof {
        lemma_prod_fits(a.value as int, b.value as int, a.field.q as int);
    }
    let v: i128 = (a.value * b.value) % a.field.q;
    proof {
        lemma_mod_bound(a.value * b.value, a.field.q as int);
    }
    PrimeFieldElement { value: v, field: a.field }
}

/// The product of two residues below the modulus bound fits in an `i128`.
proof fn lemma_prod_fits(a: int, b: int, m: int) by (nonlinear_arith)
    requires
        0 <= a < m,
        0 <= b < m,
        m <= 0x4000_0000_0000_0000,
    ensures
        0 <= a * b < 0x1000_0000_0000_0000_0000_0000_0000_0000,
{
}

/// Iterative square-and-multiply exponentiation on raw residues.
fn pow_raw(v: i128, exponent: i128, q: i128) -> (r: i128)
    requires
        0 <= v < q,
        1 < q <= MAX_MODULUS,
        exponent >= 0,
    ensures
        0 <= r < q,
        r == pow(v as int, exponent as nat) % (q as int),
{
    let mut result: i128 = 1;
    let mut base: i128 = v;
    let mut e: i128 = exponent;
    while e > 0
        invariant
            1 < q <= MAX_MODULUS,
            0 <= e,
            0 <= base < q,
            0 <= result < q,
            (result * pow(base as int, e as nat)) % (q as int) == pow(v as int, exponent as nat)
                % (q as int),
        decreases e,
    {
        let ghost e0 = e as int;
        let ghost bb = base as int;
        let ghost r0 = result as int;
        let ghost qi = q as int;
        proof {
            lemma_prod_fits(r0, bb, qi);
            lemma_prod_fits(bb, bb, qi);
            lemma_mod_bound(r0 * bb, qi);
            lemma_mod_bound(bb * bb, qi);
        }
        if e % 2 == 1 {
            result = (result * base) % q;
        }
        base = (base * base) % q;
        e = e / 2;
        proof {
            let e1 = e as int;
            let b1 = base as int;
            // pow(bb, 2 * e1) == pow(bb * bb, e1)
            lemma_pow1(bb);
            lemma_pow_adds(bb, 1nat, 1nat);
            lemma_pow_multiplies(bb, 2nat, e1 as nat);
            assert(pow(bb * bb, e1 as nat) == pow(bb, (2 * e1) as nat));
            lemma_pow_mod_noop(bb * bb, e1 as nat, qi);
            lemma_mul_mod_noop_right(result as int, pow(b1, e1 as nat), qi);
            lemma_mul_mod_noop_right(result as int, pow(bb * bb, e1 as nat), qi);
            if e0 % 2 == 1 {
                lemma_pow_adds(bb, 1nat, (e0 - 1) as nat);
                assert(pow(bb, e0 as nat) == bb * pow(bb, (e0 - 1) as nat));
                assert(e0 - 1 == 2 * e1);
                lemma_mul_mod_noop_left(r0 * bb, pow(bb * bb, e1 as nat), qi);
                assert((r0 * bb) * pow(bb * bb, e1 as nat) == r0 * pow(bb, e0 as nat))
                    by (nonlinear_arith)
                    requires
                        pow(bb * bb, e1 as nat) == pow(bb, (e0 - 1) as nat),
                        pow(bb, e0 as nat) == bb * pow(bb, (e0 - 1) as nat),
                ;
            } else {
                assert(e0 == 2 * e1);
                assert(result * pow(bb * bb, e1 as nat) == r0 * pow(bb, e0 as nat))
                    by (nonlinear_arith)
                    requires
                        result as int == r0,
                        pow(bb * bb, e1 as nat) == pow(bb, e0 as nat),
                ;
            }
        }
    }
    proof {
        lemma_pow0(v as int);
        assert(pow(base as int, 0nat) == 1) by {
            lemma_pow0(base as int);
        }
        lemma_small_mod(result as nat, q as nat);
    }
    result
}

} // verus!
