//! Vectors of three numbers, with the caller's arithmetic.

use vstd::prelude::*;
use crate::number;
use crate::number::{Op, Real, ONE, ZERO};

verus! {

#[derive(Debug, Clone, Copy, PartialEq, Eq, Structural)]
pub struct Vector {
    pub x: Real,
    pub y: Real,
    pub z: Real,
}

/// `a - b`.
pub open spec fn difference<F: Fn(Op, Real, Real) -> Real>(f: F, a: Vector, b: Vector) -> Vector {
    Vector {
        x: number::minus(f, a.x, b.x),
        y: number::minus(f, a.y, b.y),
        z: number::minus(f, a.z, b.z),
    }
}

/// `a × b`.
pub open spec fn cross<F: Fn(Op, Real, Real) -> Real>(f: F, a: Vector, b: Vector) -> Vector {
    Vector {
        x: number::minus(f, number::times(f, a.y, b.z), number::times(f, b.y, a.z)),
        y: number::minus(f, number::times(f, a.z, b.x), number::times(f, b.z, a.x)),
        z: number::minus(f, number::times(f, a.x, b.y), number::times(f, b.x, a.y)),
    }
}

/// `a · b`.
pub open spec fn dot<F: Fn(Op, Real, Real) -> Real>(f: F, a: Vector, b: Vector) -> Real {
    number::plus(
        f,
        number::plus(f, number::times(f, a.x, b.x), number::times(f, a.y, b.y)),
        number::times(f, a.z, b.z),
    )
}

/// `v * s`.
pub open spec fn scaled<F: Fn(Op, Real, Real) -> Real>(f: F, v: Vector, s: Real) -> Vector {
    Vector {
        x: number::times(f, v.x, s),
        y: number::times(f, v.y, s),
        z: number::times(f, v.z, s),
    }
}

/// One over the length.
pub open spec fn length_recip<F: Fn(Op, Real, Real) -> Real>(f: F, v: Vector) -> Real {
    number::over(f, Real { bits: ONE }, number::root(f, dot(f, v, v)))
}

/// Scaled to length one.
pub open spec fn normalized<F: Fn(Op, Real, Real) -> Real>(f: F, v: Vector) -> Vector {
    scaled(f, v, length_recip(f, v))
}

/// Towards the viewer.
pub open spec fn z_axis() -> Vector {
    Vector { x: Real { bits: ZERO }, y: Real { bits: ZERO }, z: Real { bits: ONE } }
}

/// Scaled to length one where that is possible, else towards the viewer.
pub open spec fn direction<F: Fn(Op, Real, Real) -> Real>(f: F, v: Vector) -> Vector {
    let r = length_recip(f, v);
    if r.finite() && (Real { bits: ZERO }).below(r) {
        scaled(f, v, r)
    } else {
        z_axis()
    }
}

/// The normal of a triangle.
pub open spec fn normal_of<F: Fn(Op, Real, Real) -> Real>(
    f: F,
    a: Vector,
    b: Vector,
    c: Vector,
) -> Vector {
    direction(f, cross(f, difference(f, b, a), difference(f, c, a)))
}

fn times<F: Fn(Op, Real, Real) -> Real>(f: &F, a: Real, b: Real) -> (r: Real)
    requires
        number::steady(*f),
    ensures
        r == number::times(*f, a, b),
{
    number::ask(f, Op::Times, a, b)
}

fn minus<F: Fn(Op, Real, Real) -> Real>(f: &F, a: Real, b: Real) -> (r: Real)
    requires
        number::steady(*f),
    ensures
        r == number::minus(*f, a, b),
{
    number::ask(f, Op::Minus, a, b)
}

impl Vector {
    pub fn less<F: Fn(Op, Real, Real) -> Real>(self, other: Vector, f: &F) -> (r: Vector)
        requires
            number::steady(*f),
        ensures
            r == difference(*f, self, other),
    {
        Vector {
            x: minus(f, self.x, other.x),
            y: minus(f, self.y, other.y),
            z: minus(f, self.z, other.z),
        }
    }

    pub fn cross<F: Fn(Op, Real, Real) -> Real>(self, other: Vector, f: &F) -> (r: Vector)
        requires
            number::steady(*f),
        ensures
            r == cross(*f, self, other),
    {
        Vector {
            x: minus(f, times(f, self.y, other.z), times(f, other.y, self.z)),
            y: minus(f, times(f, self.z, other.x), times(f, other.z, self.x)),
            z: minus(f, times(f, self.x, other.y), times(f, other.x, self.y)),
        }
    }

    pub fn dot<F: Fn(Op, Real, Real) -> Real>(self, other: Vector, f: &F) -> (r: Real)
        requires
            number::steady(*f),
        ensures
            r == dot(*f, self, other),
    {
        let xy = number::ask(
            f,
            Op::Plus,
            times(f, self.x, other.x),
            times(f, self.y, other.y),
        );
        number::ask(f, Op::Plus, xy, times(f, self.z, other.z))
    }

    pub fn scale<F: Fn(Op, Real, Real) -> Real>(self, s: Real, f: &F) -> (r: Vector)
        requires
            number::steady(*f),
        ensures
            r == scaled(*f, self, s),
    {
        Vector { x: times(f, self.x, s), y: times(f, self.y, s), z: times(f, self.z, s) }
    }

    fn recip<F: Fn(Op, Real, Real) -> Real>(self, f: &F) -> (r: Real)
        requires
            number::steady(*f),
        ensures
            r == length_recip(*f, self),
    {
        let square = self.dot(self, f);
        let length = number::ask(f, Op::Root, square, square);
        number::ask(f, Op::Over, Real { bits: ONE }, length)
    }

    pub fn normalize<F: Fn(Op, Real, Real) -> Real>(self, f: &F) -> (r: Vector)
        requires
            number::steady(*f),
        ensures
            r == normalized(*f, self),
    {
        self.scale(self.recip(f), f)
    }

    /// Scaled to length one where that is possible, else towards the viewer.
    pub fn direction<F: Fn(Op, Real, Real) -> Real>(self, f: &F) -> (r: Vector)
        requires
            number::steady(*f),
        ensures
            r == direction(*f, self),
    {
        let r = self.recip(f);
        if r.is_finite() && (Real { bits: ZERO }).lt(r) {
            self.scale(r, f)
        } else {
            Vector { x: Real { bits: ZERO }, y: Real { bits: ZERO }, z: Real { bits: ONE } }
        }
    }

    /// The normal of the triangle `self`, `b`, `c`.
    pub fn normal<F: Fn(Op, Real, Real) -> Real>(self, b: Vector, c: Vector, f: &F) -> (r: Vector)
        requires
            number::steady(*f),
        ensures
            r == normal_of(*f, self, b, c),
    {
        b.less(self, f).cross(c.less(self, f), f).direction(f)
    }

    pub open spec fn parts(self) -> Seq<Real> {
        seq![self.x, self.y, self.z]
    }

    pub fn to_array(self) -> (r: [Real; 3])
        ensures
            r@ == self.parts(),
    {
        [self.x, self.y, self.z]
    }
}

} // verus!
