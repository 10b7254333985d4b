use vstd::prelude::*;
use vstd::arithmetic::div_mod::{
    lemma_fundamental_div_mod, lemma_fundamental_div_mod_converse_mod, lemma_mod_bound,
    lemma_mod_multiples_basic, lemma_mod_self_0, lemma_mul_mod_noop_left,
    lemma_mul_mod_noop_right, lemma_small_mod,
};
use vstd::arithmetic::power::{lemma_pow0, lemma_pow1, lemma_pow_adds, lemma_pow_mod_noop, pow};

use crate::errors::Errors;

verus! {

/// An element of the field of residues modulo `prime`.
///
/// `prime` is a positive modulus, prime by the caller's construction
/// contract; primality is not verified at runtime. Raw construction does not
/// normalize `num` into `[0, prime)`: the invariant `0 <= num < prime` is
/// established by every arithmetic operation that produces a new element.
#[derive(Clone, Copy, Debug, PartialEq, Eq, Structural)]
pub struct FieldElement {
    pub num: i64,
    pub prime: u32,
}

impl FieldElement {
    /// The residue invariant: the value is reduced into `[0, prime)`.
    pub open spec fn wf(self) -> bool {
        0 <= self.num < self.prime
    }

    /// Two elements may be combined only when they share one modulus.
    pub open spec fn compatible(self, other: FieldElement) -> bool {
        self.prime == other.prime
    }

    /// The sum in the field: the integer sum reduced by the Euclidean
    /// remainder, so the result is non-negative for negative operands too.
    pub open spec fn add_spec(self, other: FieldElement) -> FieldElement {
        FieldElement {
            num: ((self.num + other.num) % (self.prime as int)) as i64,
            prime: self.prime,
        }
    }

    /// The difference in the field, reduced as in `add_spec`.
    pub open spec fn sub_spec(self, other: FieldElement) -> FieldElement {
        FieldElement {
            num: ((self.num - other.num) % (self.prime as int)) as i64,
            prime: self.prime,
        }
    }

    /// The product in the field, reduced as in `add_spec`.
    pub open spec fn mul_spec(self, other: FieldElement) -> FieldElement {
        FieldElement {
            num: ((self.num * other.num) % (self.prime as int)) as i64,
            prime: self.prime,
        }
    }

    /// Exponentiation in the field. The exponent is first reduced
    /// Euclideanly into `[0, prime - 1)`, so that, by Fermat's little
    /// theorem, negative exponents behave as inverses of powers; the power
    /// itself is then reduced modulo `prime`.
    pub open spec fn pow_spec(self, exp: int) -> FieldElement {
        FieldElement {
            num: (pow(self.num as int, (exp % (self.prime - 1)) as nat) % (self.prime as int))
                as i64,
            prime: self.prime,
        }
    }

    /// The quotient in the field: `self * other^(prime - 2)`, the modular
    /// inverse being taken via Fermat's little theorem. Meaningful only when
    /// `prime` is a true prime and `other` is not the zero residue.
    pub open spec fn div_spec(self, other: FieldElement) -> FieldElement {
        FieldElement {
            num: ((self.num * pow(other.num as int, (self.prime - 2) as nat)) % (
            self.prime as int)) as i64,
            prime: self.prime,
        }
    }

    /// Unconditional constructor; `num` is stored as given, without
    /// reduction into `[0, prime)`.
    pub fn new(num: i64, prime: u32) -> (r: FieldElement)
        ensures
            r.num == num,
            r.prime == prime,
    {
        FieldElement { num, prime }
    }

    /// Equality against a possibly-absent peer: true iff the peer is present
    /// and both the residue and the modulus match. An absent peer compares
    /// unequal rather than failing.
    pub fn eq(&self, elem: Option<FieldElement>) -> (r: bool)
        ensures
            r == match elem {
                Some(e) => self.num == e.num && self.prime == e.prime,
                None => false,
            },
    {
        match elem {
            Some(e) => self.num == e.num && self.prime == e.prime,
            None => false,
        }
    }

    /// The field sum. Fails with `IncompatibleField` exactly when the
    /// moduli differ; otherwise the result carries the reduced residue.
    pub fn add(&self, elem: FieldElement) -> (r: Result<FieldElement, Errors>)
        requires
            1 <= self.prime,
        ensures
            match r {
                Ok(v) => self.compatible(elem) && v == self.add_spec(elem) && v.wf(),
                Err(e) => !self.compatible(elem) && e == Errors::IncompatibleField,
            },
    {
        if self.prime != elem.prime {
            return Err(Errors::IncompatibleField);
        }
        let s: i128 = self.num as i128 + elem.num as i128;
        let n: u64 = reduce_i128(s, self.prime as u64);
        Ok(FieldElement { num: n as i64, prime: self.prime })
    }

    /// The field difference; the Euclidean reduction makes the result
    /// non-negative even when the integer difference is negative.
    pub fn sub(&self, elem: FieldElement) -> (r: Result<FieldElement, Errors>)
        requires
            1 <= self.prime,
        ensures
            match r {
                Ok(v) => self.compatible(elem) && v == self.sub_spec(elem) && v.wf(),
                Err(e) => !self.compatible(elem) && e == Errors::IncompatibleField,
            },
    {
        if self.prime != elem.prime {
            return Err(Errors::IncompatibleField);
        }
        let s: i128 = self.num as i128 - elem.num as i128;
        let n: u64 = reduce_i128(s, self.prime as u64);
        Ok(FieldElement { num: n as i64, prime: self.prime })
    }

    /// The field product, computed in a width that holds any product of two
    /// raw residues, then reduced.
    pub fn mul(&self, elem: FieldElement) -> (r: Result<FieldElement, Errors>)
        requires
            1 <= self.prime,
        ensures
            match r {
                Ok(v) => self.compatible(elem) && v == self.mul_spec(elem) && v.wf(),
                Err(e) => !self.compatible(elem) && e == Errors::IncompatibleField,
            },
    {
        if self.prime != elem.prime {
            return Err(Errors::IncompatibleField);
        }
        proof {
            lemma_i64_product_fits(self.num as int, elem.num as int);
        }
        let s: i128 = self.num as i128 * elem.num as i128;
        let n: u64 = reduce_i128(s, self.prime as u64);
        Ok(FieldElement { num: n as i64, prime: self.prime })
    }

    /// Exponentiation: the exponent is reduced Euclideanly modulo
    /// `prime - 1`, then the power is taken modulo `prime`.
    pub fn pow(&self, exp: i32) -> (r: FieldElement)
        requires
            2 <= self.prime,
        ensures
            r == self.pow_spec(exp as int),
            r.wf(),
    {
        let p: u64 = self.prime as u64;
        let n: u64 = reduce_i128(exp as i128, p - 1);
        let base: u64 = reduce_i128(self.num as i128, p);
        let acc: u64 = pow_mod_u64(base, n, p);
        proof {
            lemma_pow_mod_noop(self.num as int, n as nat, p as int);
        }
        FieldElement { num: acc as i64, prime: self.prime }
    }

    /// The field quotient `self * elem^(prime - 2)`. Fails with
    /// `IncompatibleField` exactly when the moduli differ, and with
    /// `DivisionByZero` exactly when `elem` is the zero residue.
    pub fn truediv(&self, elem: FieldElement) -> (r: Result<FieldElement, Errors>)
        requires
            2 <= self.prime,
        ensures
            match r {
                Ok(v) => self.compatible(elem) && elem.num as int % (self.prime as int) != 0
                    && v == self.div_spec(elem) && v.wf(),
                Err(e) => (e == Errors::IncompatibleField && !self.compatible(elem)) || (e
                    == Errors::DivisionByZero && self.compatible(elem) && elem.num as int % (
                self.prime as int) == 0),
            },
    {
        if self.prime != elem.prime {
            return Err(Errors::IncompatibleField);
        }
        let p: u64 = self.prime as u64;
        let base: u64 = reduce_i128(elem.num as i128, p);
        if base == 0 {
            return Err(Errors::DivisionByZero);
        }
        let inv: u64 = pow_mod_u64(base, p - 2, p);
        proof {
            lemma_i64_u32_product_fits(self.num as int, inv as int);
        }
        let s: i128 = self.num as i128 * inv as i128;
        let n: u64 = reduce_i128(s, p);
        proof {
            let pi = p as int;
            let e = (self.prime - 2) as nat;
            lemma_mul_mod_noop_right(self.num as int, pow(base as int, e), pi);
            lemma_pow_mod_noop(elem.num as int, e, pi);
            lemma_mul_mod_noop_right(self.num as int, pow(elem.num as int, e), pi);
        }
        Ok(FieldElement { num: n as i64, prime: self.prime })
    }
}

/// The sum of two compatible elements does not depend on the order of the
/// operands.
pub proof fn lemma_add_commutes(a: FieldElement, b: FieldElement)
    requires
        a.compatible(b),
    ensures
        a.add_spec(b) == b.add_spec(a),
{
}

/// The zero residue is the additive identity on reduced elements.
pub proof fn lemma_add_zero_identity(a: FieldElement)
    requires
        a.wf(),
    ensures
        a.add_spec((FieldElement { num: 0, prime: a.prime })) == a,
{
    lemma_small_mod(a.num as nat, a.prime as nat);
}

/// Raising any element outside the zero residue class to `prime - 1` yields
/// the unit residue: the exponent reduces to zero modulo `prime - 1`, the
/// normalization that Fermat's little theorem justifies on a prime modulus.
pub proof fn lemma_pow_fermat(a: FieldElement)
    requires
        2 <= a.prime,
        a.num as int % (a.prime as int) != 0,
    ensures
        a.pow_spec(a.prime - 1) == (FieldElement { num: 1, prime: a.prime }),
{
    lemma_mod_self_0(a.prime - 1);
    lemma_pow0(a.num as int);
    lemma_small_mod(1nat, a.prime as nat);
}

/// The product of two values in the signed 64-bit range fits the signed
/// 128-bit range.
proof fn lemma_i64_product_fits(a: int, b: int)
    requires
        i64::MIN <= a <= i64::MAX,
        i64::MIN <= b <= i64::MAX,
    ensures
        i128::MIN < a * b < i128::MAX,
{
    assert(i128::MIN < a * b < i128::MAX) by (nonlinear_arith)
        requires
            -0x8000000000000000 <= a <= 0x7fffffffffffffff,
            -0x8000000000000000 <= b <= 0x7fffffffffffffff,
    ;
}

/// The product of a signed 64-bit value and an unsigned 32-bit value fits
/// the signed 128-bit range.
proof fn lemma_i64_u32_product_fits(a: int, b: int)
    requires
        i64::MIN <= a <= i64::MAX,
        0 <= b <= u32::MAX,
    ensures
        i128::MIN < a * b < i128::MAX,
{
    assert(i128::MIN < a * b < i128::MAX) by (nonlinear_arith)
        requires
            -0x8000000000000000 <= a <= 0x7fffffffffffffff,
            0 <= b <= 0xffffffff,
    ;
}

/// Euclidean remainder of a wide signed value by a positive modulus. This is
/// the reduction step shared by all field operations: the result is always
/// in `[0, m)`, also for negative inputs.
fn reduce_i128(v: i128, m: u64) -> (r: u64)
    requires
        1 <= m,
        i128::MIN < v,
    ensures
        r as int == v as int % m as int,
        r < m,
{
    let mu: u128 = m as u128;
    if v >= 0 {
        let t: u128 = (v as u128) % mu;
        proof {
            lemma_mod_bound(v as int, m as int);
        }
        t as u64
    } else {
        let w: u128 = (-v) as u128;
        let t: u128 = w % mu;
        proof {
            lemma_mod_bound(w as int, m as int);
        }
        if t == 0 {
            proof {
                let q = w as int / m as int;
                lemma_fundamental_div_mod(w as int, m as int);
                assert(v as int == (-q) * (m as int)) by (nonlinear_arith)
                    requires
                        w as int == (m as int) * q,
                        v as int == -(w as int),
                ;
                lemma_mod_multiples_basic(-q, m as int);
            }
            0
        } else {
            proof {
                let q = w as int / m as int;
                lemma_fundamental_div_mod(w as int, m as int);
                assert(v as int == (-q - 1) * (m as int) + (m as int - t as int))
                    by (nonlinear_arith)
                    requires
                        w as int == (m as int) * q + t as int,
                        v as int == -(w as int),
                ;
                lemma_fundamental_div_mod_converse_mod(
                    v as int,
                    m as int,
                    -q - 1,
                    m as int - t as int,
                );
            }
            (mu - t) as u64
        }
    }
}

/// Modular exponentiation by repeated multiplication, reducing after each
/// step so that every intermediate product stays below `m * m`.
fn pow_mod_u64(base: u64, e: u64, m: u64) -> (r: u64)
    requires
        1 <= m <= 0xffffffff,
        base < m,
    ensures
        r as int == pow(base as int, e as nat) % m as int,
        r < m,
{
    let mut acc: u64 = 1 % m;
    let mut i: u64 = 0;
    proof {
        lemma_pow0(base as int);
        lemma_mod_bound(1, m as int);
    }
    while i < e
        invariant
            i <= e,
            1 <= m <= 0xffffffff,
            base < m,
            acc < m,
            acc as int == pow(base as int, i as nat) % m as int,
        decreases e - i,
    {
        proof {
            let b = base as int;
            let mi = m as int;
            assert(acc as int * b < 0x10000000000000000) by (nonlinear_arith)
                requires
                    (acc as int) < mi,
                    b < mi,
                    0 <= (acc as int),
                    0 <= b,
                    mi <= 0x100000000,
            ;
            lemma_pow_adds(b, i as nat, 1nat);
            lemma_pow1(b);
            lemma_mul_mod_noop_left(pow(b, i as nat), b, mi);
            lemma_mod_bound(acc as int * b, mi);
        }
        acc = (acc * base) % m;
        i = i + 1;
    }
    acc
}

} // verus!

