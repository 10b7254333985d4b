use vstd::arithmetic::div_mod::lemma_fundamental_div_mod_converse;
use vstd::arithmetic::mul::lemma_mul_is_distributive_sub_other_way;
use vstd::prelude::*;

use crate::bigint::{
    bi_add, bi_clone, bi_div_exact, bi_eq, bi_from, bi_is_zero, bi_mul, bi_sub, divides, int_of,
};
use crate::errors::Errors;

verus! {

/// A point of a Weierstrass curve `y^2 = x^3 + a*x + b`: either a finite
/// point with big-integer coordinates, or the group identity `Infinity`.
///
/// The coordinates live in the unrestricted integer domain; a caller working
/// over a prime field reduces modulo that prime while constructing points.
pub enum Point {
    OnCurve(num_bigint::BigInt, num_bigint::BigInt),
    Infinity,
}

/// The mathematical value of a `Point`: its coordinates as unbounded
/// integers, or the identity.
pub enum PointV {
    Finite { x: int, y: int },
    Infinity,
}

impl View for Point {
    type V = PointV;

    open spec fn view(&self) -> PointV {
        match *self {
            Point::OnCurve(x, y) => PointV::Finite { x: int_of(x), y: int_of(y) },
            Point::Infinity => PointV::Infinity,
        }
    }
}

/// The Weierstrass equation: `(x, y)` satisfies `y^2 = x^3 + a*x + b`.
pub open spec fn on_curve(a: int, b: int, x: int, y: int) -> bool {
    y * y == x * x * x + a * x + b
}

/// The exact quotient of `n` by a nonzero divisor `d` that divides it.
pub open spec fn exact_div(n: int, d: int) -> int {
    if d > 0 {
        n / d
    } else {
        -(n / -d)
    }
}

/// The quotient of an exact product is the original factor.
pub proof fn lemma_exact_div(n: int, d: int, q: int)
    requires
        d != 0,
        n == q * d,
    ensures
        exact_div(n, d) == q,
{
    if d > 0 {
        lemma_fundamental_div_mod_converse(n, d, q, 0);
    } else {
        assert(n == (-q) * (-d)) by (nonlinear_arith)
            requires
                n == q * d,
        ;
        lemma_fundamental_div_mod_converse(n, -d, -q, 0);
    }
}

/// The cubic that measures how far the line through `(x1, y1)` with slope
/// `s` lies from the curve, `C(t) = t^3 + a*t + b - (y1 + s*(t - x1))^2`,
/// splits into the monic cubic with roots `x1`, `x2`, `x3` plus a residual
/// line `c1*t + c0`, whenever the three roots sum to `s^2` (which makes the
/// quadratic coefficients agree). `c1` and `c0` are the stated polynomials.
proof fn lemma_line_split(a: int, b: int, x1: int, y1: int, s: int, x2: int, x3: int, t: int)
    requires
        x1 + x2 + x3 == s * s,
    ensures
        t * t * t + a * t + b - (y1 + s * (t - x1)) * (y1 + s * (t - x1)) == (t - x1) * ((t - x2)
            * (t - x3)) + (a - 2 * s * y1 + 2 * s * s * x1 - (x1 * x2 + x1 * x3 + x2 * x3)) * t + (
        b - (y1 - s * x1) * (y1 - s * x1) + x1 * x2 * x3),
{
    let u = y1 - s * x1;
    let sum2 = x1 * x2 + x1 * x3 + x2 * x3;
    let g = u + s * t;
    let p = (t - x2) * (t - x3);
    let q = (t - x1) * p;
    assert(s * (t - x1) == s * t - s * x1) by (nonlinear_arith);
    assert(y1 + s * (t - x1) == g);
    assert((t - x2) * (t - x3) == t * t - x2 * t - x3 * t + x2 * x3) by (nonlinear_arith);
    lemma_mul_is_distributive_sub_other_way(t * t - x2 * t - x3 * t + x2 * x3, t, x1);
    assert(t * (t * t - x2 * t - x3 * t + x2 * x3) == t * t * t - x2 * (t * t) - x3 * (t * t) + x2
        * x3 * t) by (nonlinear_arith);
    assert(x1 * (t * t - x2 * t - x3 * t + x2 * x3) == x1 * (t * t) - x1 * x2 * t - x1 * x3 * t
        + x1 * x2 * x3) by (nonlinear_arith);
    assert(q == t * t * t - x1 * (t * t) - x2 * (t * t) - x3 * (t * t) + x1 * x2 * t + x1 * x3 * t
        + x2 * x3 * t - x1 * x2 * x3);
    assert((x1 + x2 + x3) * (t * t) == x1 * (t * t) + x2 * (t * t) + x3 * (t * t))
        by (nonlinear_arith);
    assert(s * s * (t * t) == x1 * (t * t) + x2 * (t * t) + x3 * (t * t));
    assert((u + s * t) * (u + s * t) == u * u + 2 * s * t * u + s * s * (t * t))
        by (nonlinear_arith);
    assert((a - 2 * s * u - (x1 * x2 + x1 * x3 + x2 * x3)) * t == a * t - 2 * s * t * u - x1 * x2
        * t - x1 * x3 * t - x2 * x3 * t) by (nonlinear_arith);
    assert((a - 2 * s * y1 + 2 * s * s * x1 - (x1 * x2 + x1 * x3 + x2 * x3)) * t == (a - 2 * s * (
    y1 - s * x1) - (x1 * x2 + x1 * x3 + x2 * x3)) * t) by (nonlinear_arith);
    assert(u * u == (y1 - s * x1) * (y1 - s * x1));
    assert(t * t * t + a * t + b - g * g == q + (a - 2 * s * u - sum2) * t + (b - u * u + x1 * x2
        * x3));
}

/// Closure of the chord case of the group law: when two points of the curve
/// have distinct abscissas and the chord through them has an exact integer
/// slope `s`, the mirrored third intersection point lies on the curve too.
///
/// The proof follows the geometric argument: the cubic `C` of
/// `lemma_line_split` vanishes at `x1` and `x2` by the two curve equations,
/// so its residual line vanishes at two distinct abscissas and is the zero
/// line; hence `C(x3) == 0` for the third root `x3 = s^2 - x1 - x2`, and
/// the mirrored ordinate `y3 = -(y1 + s*(x3 - x1))` has the same square.
pub proof fn lemma_chord_closure(a: int, b: int, x1: int, y1: int, x2: int, y2: int, s: int)
    requires
        x1 != x2,
        on_curve(a, b, x1, y1),
        on_curve(a, b, x2, y2),
        s * (x2 - x1) == y2 - y1,
    ensures
        on_curve(a, b, s * s - x1 - x2, s * (x1 - (s * s - x1 - x2)) - y1),
{
    let x3 = s * s - x1 - x2;
    let y3 = s * (x1 - x3) - y1;
    let c1 = a - 2 * s * y1 + 2 * s * s * x1 - (x1 * x2 + x1 * x3 + x2 * x3);
    let c0 = b - (y1 - s * x1) * (y1 - s * x1) + x1 * x2 * x3;
    lemma_line_split(a, b, x1, y1, s, x2, x3, x1);
    assert((x1 - x1) * ((x1 - x2) * (x1 - x3)) == 0) by (nonlinear_arith);
    assert(c1 * x1 + c0 == 0);
    lemma_line_split(a, b, x1, y1, s, x2, x3, x2);
    assert((x2 - x1) * ((x2 - x2) * (x2 - x3)) == 0) by (nonlinear_arith);
    assert(y1 + s * (x2 - x1) == y2);
    assert(c1 * x2 + c0 == 0);
    assert(c1 == 0) by (nonlinear_arith)
        requires
            c1 * x1 + c0 == 0,
            c1 * x2 + c0 == 0,
            x1 != x2,
    ;
    assert(c0 == 0);
    lemma_line_split(a, b, x1, y1, s, x2, x3, x3);
    assert((x3 - x1) * ((x3 - x2) * (x3 - x3)) == 0) by (nonlinear_arith);
    assert(x3 * x3 * x3 + a * x3 + b == (y1 + s * (x3 - x1)) * (y1 + s * (x3 - x1)));
    assert(y3 * y3 == (y1 + s * (x3 - x1)) * (y1 + s * (x3 - x1))) by (nonlinear_arith)
        requires
            y3 == s * (x1 - x3) - y1,
    ;
}

/// Closure of the doubling case: when a point with a nonzero ordinate lies
/// on the curve and the tangent slope `s` there is an exact integer, the
/// doubled point lies on the curve.
///
/// The argument mirrors `lemma_chord_closure` with a double root at `x1`:
/// here the residual line's slope reduces to `3*x1^2 + a - 2*s*y1`, which
/// the exact-tangent hypothesis makes zero directly, and `C(x1) == 0` then
/// forces the constant term to zero as well.
pub proof fn lemma_tangent_closure(a: int, b: int, x1: int, y1: int, s: int)
    requires
        y1 != 0,
        on_curve(a, b, x1, y1),
        s * (2 * y1) == 3 * x1 * x1 + a,
    ensures
        on_curve(a, b, s * s - 2 * x1, s * (x1 - (s * s - 2 * x1)) - y1),
{
    let x3 = s * s - 2 * x1;
    let y3 = s * (x1 - x3) - y1;
    let c1 = a - 2 * s * y1 + 2 * s * s * x1 - (x1 * x1 + x1 * x3 + x1 * x3);
    let c0 = b - (y1 - s * x1) * (y1 - s * x1) + x1 * x1 * x3;
    lemma_line_split(a, b, x1, y1, s, x1, x3, x1);
    assert((x1 - x1) * ((x1 - x1) * (x1 - x3)) == 0) by (nonlinear_arith);
    assert(c1 * x1 + c0 == 0);
    assert(c1 == 0) by (nonlinear_arith)
        requires
            c1 == a - 2 * s * y1 + 2 * s * s * x1 - (x1 * x1 + x1 * x3 + x1 * x3),
            x3 == s * s - 2 * x1,
            s * (2 * y1) == 3 * x1 * x1 + a,
    ;
    assert(c0 == 0);
    lemma_line_split(a, b, x1, y1, s, x1, x3, x3);
    assert((x3 - x1) * ((x3 - x1) * (x3 - x3)) == 0) by (nonlinear_arith);
    assert(x3 * x3 * x3 + a * x3 + b == (y1 + s * (x3 - x1)) * (y1 + s * (x3 - x1)));
    assert(y3 * y3 == (y1 + s * (x3 - x1)) * (y1 + s * (x3 - x1))) by (nonlinear_arith)
        requires
            y3 == s * (x1 - x3) - y1,
    ;
}

/// A curve context: the two coefficients of `y^2 = x^3 + a*x + b`. Points
/// are combined through a context, so both operands always belong to one
/// curve.
pub struct Curve {
    pub a: i64,
    pub b: i64,
}

impl Curve {
    /// The point lies on this curve; the identity always does.
    pub open spec fn contains(self, p: PointV) -> bool {
        match p {
            PointV::Finite { x, y } => on_curve(self.a as int, self.b as int, x, y),
            PointV::Infinity => true,
        }
    }

    /// The chord-and-tangent group law. In the doubling case the slope is
    /// `(3*x1^2 + a) / (2*y1)`, in the general case `(y2 - y1) / (x2 - x1)`,
    /// both exact integer divisions.
    pub open spec fn add_spec(self, p1: PointV, p2: PointV) -> PointV {
        match (p1, p2) {
            (PointV::Infinity, q) => q,
            (q, PointV::Infinity) => q,
            (PointV::Finite { x: x1, y: y1 }, PointV::Finite { x: x2, y: y2 }) => {
                if x1 == x2 {
                    if y1 == y2 {
                        if y1 == 0 {
                            PointV::Infinity
                        } else {
                            let s = exact_div(3 * x1 * x1 + self.a, 2 * y1);
                            PointV::Finite {
                                x: s * s - 2 * x1,
                                y: s * (x1 - (s * s - 2 * x1)) - y1,
                            }
                        }
                    } else {
                        PointV::Infinity
                    }
                } else {
                    let s = exact_div(y2 - y1, x2 - x1);
                    PointV::Finite { x: s * s - x1 - x2, y: s * (x1 - (s * s - x1 - x2)) - y1 }
                }
            },
        }
    }

    /// The slope division of the group law is exact: the tangent denominator
    /// `2*y1` divides `3*x1^2 + a` when doubling, and the chord denominator
    /// `x2 - x1` divides `y2 - y1` in the general case. On other operand
    /// pairs the law divides nothing, so nothing is demanded.
    pub open spec fn addable(self, p1: PointV, p2: PointV) -> bool {
        match (p1, p2) {
            (PointV::Finite { x: x1, y: y1 }, PointV::Finite { x: x2, y: y2 }) => {
                if x1 == x2 {
                    (y1 == y2 && y1 != 0) ==> divides(2 * y1, 3 * x1 * x1 + self.a)
                } else {
                    divides(x2 - x1, y2 - y1)
                }
            },
            _ => true,
        }
    }
}

impl Curve {
    /// A curve context with the given coefficients.
    pub fn new(a: i64, b: i64) -> (c: Curve)
        ensures
            c.a == a,
            c.b == b,
    {
        Curve { a, b }
    }

    /// The group identity of this curve.
    pub fn new_infinity(&self) -> (r: Point)
        ensures
            r@ == PointV::Infinity,
    {
        Point::Infinity
    }

    /// Validates the coordinates against the curve equation: returns the
    /// finite point exactly when `y^2 == x^3 + a*x + b` holds, and the
    /// `InvalidPoint` condition exactly when it does not.
    pub fn new_point(&self, x: num_bigint::BigInt, y: num_bigint::BigInt) -> (r: Result<
        Point,
        Errors,
    >)
        ensures
            match r {
                Ok(p) => p@ == (PointV::Finite { x: int_of(x), y: int_of(y) }) && self.contains(
                    p@,
                ),
                Err(e) => e == Errors::InvalidPoint && !on_curve(
                    self.a as int,
                    self.b as int,
                    int_of(x),
                    int_of(y),
                ),
            },
    {
        let yy = bi_mul(&y, &y);
        let xx = bi_mul(&x, &x);
        let xxx = bi_mul(&xx, &x);
        let ca = bi_from(self.a);
        let ax = bi_mul(&ca, &x);
        let cb = bi_from(self.b);
        let t = bi_add(&xxx, &ax);
        let rhs = bi_add(&t, &cb);
        if bi_eq(&yy, &rhs) {
            Ok(Point::OnCurve(x, y))
        } else {
            Err(Errors::InvalidPoint)
        }
    }

    /// The group law. Both operands must lie on the curve and the slope
    /// division of their case must be exact; the sum then lies on the curve
    /// as well.
    pub fn add(&self, p1: &Point, p2: &Point) -> (r: Point)
        requires
            self.contains(p1@),
            self.contains(p2@),
            self.addable(p1@, p2@),
        ensures
            r@ == self.add_spec(p1@, p2@),
            self.contains(r@),
    {
        match p1 {
            Point::Infinity => p2.duplicate(),
            Point::OnCurve(x1, y1) => match p2 {
                Point::Infinity => p1.duplicate(),
                Point::OnCurve(x2, y2) => {
                    proof {
                        assert(p1@ == (PointV::Finite { x: int_of(*x1), y: int_of(*y1) }));
                        assert(p2@ == (PointV::Finite { x: int_of(*x2), y: int_of(*y2) }));
                    }
                    if bi_eq(x1, x2) {
                        if bi_eq(y1, y2) {
                            if bi_is_zero(y1) {
                                Point::Infinity
                            } else {
                                let xx = bi_mul(x1, x1);
                                let c3 = bi_from(3);
                                let t3 = bi_mul(&c3, &xx);
                                let ca = bi_from(self.a);
                                let num = bi_add(&t3, &ca);
                                let c2 = bi_from(2);
                                let den = bi_mul(&c2, y1);
                                proof {
                                    let x1v = int_of(*x1);
                                    assert(3 * (x1v * x1v) == 3 * x1v * x1v) by (nonlinear_arith);
                                }
                                let s = bi_div_exact(&num, &den);
                                let ss = bi_mul(&s, &s);
                                let tw = bi_mul(&c2, x1);
                                let x3 = bi_sub(&ss, &tw);
                                let d = bi_sub(x1, &x3);
                                let sd = bi_mul(&s, &d);
                                let y3 = bi_sub(&sd, y1);
                                proof {
                                    let x1v = int_of(*x1);
                                    let y1v = int_of(*y1);
                                    let sv = int_of(s);
                                    lemma_exact_div(3 * x1v * x1v + self.a as int, 2 * y1v, sv);
                                    lemma_tangent_closure(
                                        self.a as int,
                                        self.b as int,
                                        x1v,
                                        y1v,
                                        sv,
                                    );
                                }
                                Point::OnCurve(x3, y3)
                            }
                        } else {
                            Point::Infinity
                        }
                    } else {
                        let dy = bi_sub(y2, y1);
                        let dx = bi_sub(x2, x1);
                        let s = bi_div_exact(&dy, &dx);
                        let ss = bi_mul(&s, &s);
                        let t = bi_sub(&ss, x1);
                        let x3 = bi_sub(&t, x2);
                        let d = bi_sub(x1, &x3);
                        let sd = bi_mul(&s, &d);
                        let y3 = bi_sub(&sd, y1);
                        proof {
                            let x1v = int_of(*x1);
                            let y1v = int_of(*y1);
                            let x2v = int_of(*x2);
                            let y2v = int_of(*y2);
                            let sv = int_of(s);
                            lemma_exact_div(y2v - y1v, x2v - x1v, sv);
                            lemma_chord_closure(
                                self.a as int,
                                self.b as int,
                                x1v,
                                y1v,
                                x2v,
                                y2v,
                                sv,
                            );
                        }
                        Point::OnCurve(x3, y3)
                    }
                },
            },
        }
    }
}

impl Point {
    /// Structural equality: both are the identity, or both are finite with
    /// the same coordinates.
    pub fn eq(&self, other: &Point) -> (r: bool)
        ensures
            r == (self@ == other@),
    {
        match self {
            Point::Infinity => match other {
                Point::Infinity => true,
                Point::OnCurve(_, _) => false,
            },
            Point::OnCurve(x1, y1) => match other {
                Point::Infinity => false,
                Point::OnCurve(x2, y2) => bi_eq(x1, x2) && bi_eq(y1, y2),
            },
        }
    }

    /// A copy of the point, with cloned coordinates.
    pub fn duplicate(&self) -> (r: Point)
        ensures
            r@ == self@,
    {
        match self {
            Point::Infinity => Point::Infinity,
            Point::OnCurve(x, y) => Point::OnCurve(bi_clone(x), bi_clone(y)),
        }
    }
}

/// Identity laws: the point at infinity is neutral on either side of the
/// group law.
pub proof fn lemma_add_identity(c: Curve, p: PointV)
    ensures
        c.add_spec(PointV::Infinity, p) == p,
        c.add_spec(p, PointV::Infinity) == p,
{
}

/// Inverse law: a finite point with nonzero ordinate plus its reflection
/// across the x-axis is the identity.
pub proof fn lemma_add_inverse(c: Curve, x: int, y: int)
    requires
        y != 0,
    ensures
        c.add_spec((PointV::Finite { x, y }), (PointV::Finite { x, y: -y })) == PointV::Infinity,
{
}

/// Doubling a point whose tangent is vertical (`y == 0`) gives the
/// identity.
pub proof fn lemma_double_vertical(c: Curve, x: int)
    ensures
        c.add_spec((PointV::Finite { x, y: 0 }), (PointV::Finite { x, y: 0 }))
            == PointV::Infinity,
{
}

/// Closure: the sum of two points of the curve lies on the curve, whenever
/// the slope division of the applicable case is exact.
pub proof fn lemma_add_closure(c: Curve, p1: PointV, p2: PointV)
    requires
        c.contains(p1),
        c.contains(p2),
        c.addable(p1, p2),
    ensures
        c.contains(c.add_spec(p1, p2)),
{
    match (p1, p2) {
        (PointV::Finite { x: x1, y: y1 }, PointV::Finite { x: x2, y: y2 }) => {
            let a = c.a as int;
            let b = c.b as int;
            if x1 == x2 {
                if y1 == y2 && y1 != 0 {
                    let q = choose|q: int| 3 * x1 * x1 + a == #[trigger] (q * (2 * y1));
                    lemma_exact_div(3 * x1 * x1 + a, 2 * y1, q);
                    lemma_tangent_closure(a, b, x1, y1, q);
                }
            } else {
                let q = choose|q: int| y2 - y1 == #[trigger] (q * (x2 - x1));
                lemma_exact_div(y2 - y1, x2 - x1, q);
                lemma_chord_closure(a, b, x1, y1, x2, y2, q);
            }
        },
        _ => {},
    }
}

} // verus!
