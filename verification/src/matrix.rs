use vstd::prelude::*;
use crate::point::Point;
use crate::util::{floor_div_wide, mul_fx_wide, round_div_wide, sat_fx, sat32, rhu16, rdiv};

verus! {

/// A 3x2 affine matrix in 16.16 fixed point, row-major:
///
/// ```text
/// | a b c |
/// | d e f |
/// | 0 0 1 |
/// ```
///
/// It maps a point by `(x, y) -> (a*x + b*y + c, d*x + e*y + f)`. Products
/// of two 16.16 entries are rounded back to 16.16 half up, and results that
/// leave the i32 range saturate at its edge.
#[derive(Copy, Clone, PartialEq, Eq, Structural, Debug)]
pub struct Matrix {
    pub a: i32,
    pub b: i32,
    pub c: i32,
    pub d: i32,
    pub e: i32,
    pub f: i32,
}

/// The identity transform.
pub open spec fn identity_spec() -> Matrix {
    Matrix { a: 0x10000, b: 0, c: 0, d: 0, e: 0x10000, f: 0 }
}

/// The x coordinate of a transformed point.
pub open spec fn apply_x_spec(m: Matrix, px: int, py: int) -> int {
    sat32(rhu16(m.a * px + m.b * py) + m.c)
}

/// The y coordinate of a transformed point.
pub open spec fn apply_y_spec(m: Matrix, px: int, py: int) -> int {
    sat32(rhu16(m.d * px + m.e * py) + m.f)
}

/// The row-major product of two matrices, entry by entry.
pub open spec fn mul_spec(m: Matrix, o: Matrix) -> Matrix {
    Matrix {
        a: sat32(rhu16(m.a * o.a + m.b * o.d)) as i32,
        b: sat32(rhu16(m.a * o.b + m.b * o.e)) as i32,
        c: sat32(rhu16(m.a * o.c + m.b * o.f) + m.c) as i32,
        d: sat32(rhu16(m.d * o.a + m.e * o.d)) as i32,
        e: sat32(rhu16(m.d * o.b + m.e * o.e)) as i32,
        f: sat32(rhu16(m.d * o.c + m.e * o.f) + m.f) as i32,
    }
}

/// The determinant of the linear part, in 32.32 fixed point.
pub open spec fn det2(m: Matrix) -> int {
    m.a * m.e - m.b * m.d
}

/// The entries of the inverse, rounded to nearest: the true inverse of the
/// linear part scaled back to 16.16, with the translation solved against it.
pub open spec fn inv_a(m: Matrix) -> int { rdiv(m.e * 0x100000000, det2(m)) }

pub open spec fn inv_b(m: Matrix) -> int { rdiv(-m.b * 0x100000000, det2(m)) }

pub open spec fn inv_c(m: Matrix) -> int { rdiv((m.b * m.f - m.c * m.e) * 0x10000, det2(m)) }

pub open spec fn inv_d(m: Matrix) -> int { rdiv(-m.d * 0x100000000, det2(m)) }

pub open spec fn inv_e(m: Matrix) -> int { rdiv(m.a * 0x100000000, det2(m)) }

pub open spec fn inv_f(m: Matrix) -> int { rdiv((m.c * m.d - m.a * m.f) * 0x10000, det2(m)) }

/// The rounded inverse as a matrix (meaningful when the determinant is
/// nonzero and every entry fits).
pub open spec fn inv_of(m: Matrix) -> Matrix {
    Matrix {
        a: inv_a(m) as i32,
        b: inv_b(m) as i32,
        c: inv_c(m) as i32,
        d: inv_d(m) as i32,
        e: inv_e(m) as i32,
        f: inv_f(m) as i32,
    }
}

/// Whether every entry of the rounded inverse fits the 16.16 i32 range.
pub open spec fn inv_fits(m: Matrix) -> bool {
    &&& i32::MIN <= inv_a(m) <= i32::MAX
    &&& i32::MIN <= inv_b(m) <= i32::MAX
    &&& i32::MIN <= inv_c(m) <= i32::MAX
    &&& i32::MIN <= inv_d(m) <= i32::MAX
    &&& i32::MIN <= inv_e(m) <= i32::MAX
    &&& i32::MIN <= inv_f(m) <= i32::MAX
}

/// Multiplying by the identity on the right changes nothing.
pub proof fn lemma_mul_identity_right(m: Matrix)
    ensures
        mul_spec(m, identity_spec()) == m,
{
    assert forall|v: int| i32::MIN <= v <= i32::MAX implies #[trigger] rhu16(v * 0x10000) == v by {
        assert((v * 0x10000 + 0x8000) / 0x10000 == v) by (nonlinear_arith);
    }
    assert(m.a * 0x10000 + m.b * 0 == m.a * 0x10000);
    assert(m.a * 0 + m.b * 0x10000 == m.b * 0x10000);
    assert(m.a * 0 + m.b * 0 == 0);
    assert(m.d * 0x10000 + m.e * 0 == m.d * 0x10000);
    assert(m.d * 0 + m.e * 0x10000 == m.e * 0x10000);
    assert(m.d * 0 + m.e * 0 == 0);
    assert(rhu16(0) == 0);
}

/// Multiplying by the identity on the left changes nothing.
pub proof fn lemma_mul_identity_left(m: Matrix)
    ensures
        mul_spec(identity_spec(), m) == m,
{
    assert forall|v: int| i32::MIN <= v <= i32::MAX implies #[trigger] rhu16(0x10000 * v) == v by {
        assert((0x10000 * v + 0x8000) / 0x10000 == v) by (nonlinear_arith);
    }
    assert(0x10000 * m.a + 0 * m.d == 0x10000 * m.a);
    assert(0x10000 * m.b + 0 * m.e == 0x10000 * m.b);
    assert(0x10000 * m.c + 0 * m.f == 0x10000 * m.c);
    assert(0 * m.a + 0x10000 * m.d == 0x10000 * m.d);
    assert(0 * m.b + 0x10000 * m.e == 0x10000 * m.e);
    assert(0 * m.c + 0x10000 * m.f == 0x10000 * m.f);
}

impl Matrix {
    /// Builds a matrix from its six row-major 16.16 entries.
    pub fn new(mat: [i32; 6]) -> (m: Matrix)
        ensures
            m.a == mat@[0] && m.b == mat@[1] && m.c == mat@[2],
            m.d == mat@[3] && m.e == mat@[4] && m.f == mat@[5],
    {
        Matrix { a: mat[0], b: mat[1], c: mat[2], d: mat[3], e: mat[4], f: mat[5] }
    }

    /// The identity transform.
    pub fn identity() -> (m: Matrix)
        ensures
            m == identity_spec(),
    {
        Matrix { a: 0x10000, b: 0, c: 0, d: 0, e: 0x10000, f: 0 }
    }

    /// One row-major entry, indexed 0 through 5.
    pub fn at(&self, i: usize) -> (v: i32)
        requires
            i < 6,
        ensures
            v == self.entry(i as int),
    {
        match i {
            0 => self.a,
            1 => self.b,
            2 => self.c,
            3 => self.d,
            4 => self.e,
            _ => self.f,
        }
    }

    /// One row-major entry, as a spec value.
    pub open spec fn entry(&self, i: int) -> i32 {
        if i == 0 {
            self.a
        } else if i == 1 {
            self.b
        } else if i == 2 {
            self.c
        } else if i == 3 {
            self.d
        } else if i == 4 {
            self.e
        } else {
            self.f
        }
    }

    /// The six row-major 16.16 entries as an array.
    pub fn entries(&self) -> (out: [i32; 6])
        ensures
            out@[0] == self.a && out@[1] == self.b && out@[2] == self.c,
            out@[3] == self.d && out@[4] == self.e && out@[5] == self.f,
    {
        [self.a, self.b, self.c, self.d, self.e, self.f]
    }

    /// Transforms a point: `(x, y) -> (a*x + b*y + c, d*x + e*y + f)`,
    /// rounding half up and saturating at the i32 range.
    pub fn apply(&self, point: &Point) -> (out: Point)
        ensures
            out.x == apply_x_spec(*self, point.x as int, point.y as int),
            out.y == apply_y_spec(*self, point.x as int, point.y as int),
    {
        let sx = mul_fx_wide(self.a, point.x) + mul_fx_wide(self.b, point.y);
        let sy = mul_fx_wide(self.d, point.x) + mul_fx_wide(self.e, point.y);

        let xp = sat_fx(floor_div_wide(sx + 0x8000, 0x10000) + self.c as i128);
        let yp = sat_fx(floor_div_wide(sy + 0x8000, 0x10000) + self.f as i128);

        Point::new(xp, yp)
    }

    /// The rounded inverse: `Some` exactly when the determinant of the
    /// linear part is nonzero and every entry of the rounded inverse fits
    /// the 16.16 i32 range.
    pub fn inv(&self) -> (out: Option<Matrix>)
        ensures
            out.is_some() == (det2(*self) != 0 && inv_fits(*self)),
            out.is_some() ==> out == Some(inv_of(*self)),
    {
        let det = mul_fx_wide(self.a, self.e) - mul_fx_wide(self.b, self.d);
        if det == 0 {
            return None;
        }

        let na = (self.e as i128) * 0x100000000;
        let nb = -(self.b as i128) * 0x100000000;
        let nc = (mul_fx_wide(self.b, self.f) - mul_fx_wide(self.c, self.e)) * 0x10000;
        let nd = -(self.d as i128) * 0x100000000;
        let ne = (self.a as i128) * 0x100000000;
        let nf = (mul_fx_wide(self.c, self.d) - mul_fx_wide(self.a, self.f)) * 0x10000;

        let qa = round_div_wide(na, det);
        let qb = round_div_wide(nb, det);
        let qc = round_div_wide(nc, det);
        let qd = round_div_wide(nd, det);
        let qe = round_div_wide(ne, det);
        let qf = round_div_wide(nf, det);

        let lo = i32::MIN as i128;
        let hi = i32::MAX as i128;
        if qa < lo || qa > hi || qb < lo || qb > hi || qc < lo || qc > hi || qd < lo || qd > hi
            || qe < lo || qe > hi || qf < lo || qf > hi {
            return None;
        }

        Some(Matrix {
            a: qa as i32,
            b: qb as i32,
            c: qc as i32,
            d: qd as i32,
            e: qe as i32,
            f: qf as i32,
        })
    }

    /// The row-major product `self * other`, so that applying the result
    /// equals applying `other` first and `self` second (up to rounding).
    pub fn mul(&self, other: &Matrix) -> (out: Matrix)
        ensures
            out == mul_spec(*self, *other),
    {
        let ra = sat_fx(floor_div_wide(
            mul_fx_wide(self.a, other.a) + mul_fx_wide(self.b, other.d) + 0x8000, 0x10000));
        let rb = sat_fx(floor_div_wide(
            mul_fx_wide(self.a, other.b) + mul_fx_wide(self.b, other.e) + 0x8000, 0x10000));
        let rc = sat_fx(floor_div_wide(
            mul_fx_wide(self.a, other.c) + mul_fx_wide(self.b, other.f) + 0x8000, 0x10000)
            + self.c as i128);
        let rd = sat_fx(floor_div_wide(
            mul_fx_wide(self.d, other.a) + mul_fx_wide(self.e, other.d) + 0x8000, 0x10000));
        let re = sat_fx(floor_div_wide(
            mul_fx_wide(self.d, other.b) + mul_fx_wide(self.e, other.e) + 0x8000, 0x10000));
        let rf = sat_fx(floor_div_wide(
            mul_fx_wide(self.d, other.c) + mul_fx_wide(self.e, other.f) + 0x8000, 0x10000)
            + self.f as i128);

        Matrix { a: ra, b: rb, c: rc, d: rd, e: re, f: rf }
    }
}

} // verus!
