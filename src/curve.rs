use crate::field::{modulus, Scalar};
use group::prime::PrimeCurveAffine;
use group::{Curve, Group};
use halo2curves::bn256::{Fq, Fr, G1, G1Affine};
use vstd::prelude::*;

verus! {

/// The discrete logarithm, to the base of the standard generator, of the point of
/// bn256's G1 with these projective coordinates (canonical little-endian limbs of the
/// base field). G1 is cyclic of the prime order r, so each point has exactly one such
/// logarithm in `[0, r)`, and the group law adds logarithms modulo r.
pub uninterp spec fn g1_log(x: Seq<u64>, y: Seq<u64>, z: Seq<u64>) -> int;

/// A point of bn256's G1 in projective coordinates, each held as the canonical limbs
/// of a base field element. Values come only from the operations below, so each one
/// is a point of the group.
#[derive(Clone, Copy, Debug)]
pub struct Point {
    x: [u64; 4],
    y: [u64; 4],
    z: [u64; 4],
}

impl Point {
    /// The point as an element of the integers modulo r.
    pub closed spec fn log(self) -> int {
        g1_log(self.x@, self.y@, self.z@) % modulus()
    }

    /// The neutral element.
    pub fn identity() -> (r: Point)
        ensures
            r.log() == 0,
    {
        g1_identity()
    }

    /// The standard generator.
    pub fn generator() -> (r: Point)
        ensures
            r.log() == 1,
    {
        g1_generator()
    }

    pub fn add(&self, o: &Point) -> (r: Point)
        ensures
            r.log() == (self.log() + o.log()) % modulus(),
    {
        g1_add(self, o)
    }

    pub fn sub(&self, o: &Point) -> (r: Point)
        ensures
            r.log() == (self.log() - o.log()) % modulus(),
    {
        g1_sub(self, o)
    }

    pub fn double(&self) -> (r: Point)
        ensures
            r.log() == (2 * self.log()) % modulus(),
    {
        g1_double(self)
    }

    pub fn mul(&self, s: &Scalar) -> (r: Point)
        requires
            s.wf(),
        ensures
            r.log() == (self.log() * s.value()) % modulus(),
    {
        g1_mul(self, s)
    }

    /// The two values denote the same point.
    pub open spec fn eq_point_spec(self, o: Point) -> bool {
        self.log() == o.log()
    }

    /// Whether the two values denote the same point.
    pub fn eq_point(&self, o: &Point) -> (r: bool)
        ensures
            r == self.eq_point_spec(*o),
    {
        g1_eq(self, o)
    }

    /// The same points, each brought to affine form (`z` one, or the identity).
    pub fn batch_normalize(v: &Vec<Point>) -> (r: Vec<Point>)
        ensures
            r.len() == v.len(),
            forall|i: int| 0 <= i < v.len() ==> #[trigger] r@[i].log() == v@[i].log(),
    {
        g1_batch_normalize(v)
    }

    /// The value lies in `[0, r)`.
    pub proof fn lemma_log_range(self)
        ensures
            0 <= self.log() < modulus(),
    {
    }
}

/// Relies on `G1::identity`: the neutral element.
#[verifier::external_body]
fn g1_identity() -> (r: Point)
    ensures
        g1_log(r.x@, r.y@, r.z@) % modulus() == 0,
{
    let g = G1::identity();
    Point { x: g.x.into(), y: g.y.into(), z: g.z.into() }
}

/// Relies on `G1::generator`: the base of the logarithms.
#[verifier::external_body]
fn g1_generator() -> (r: Point)
    ensures
        g1_log(r.x@, r.y@, r.z@) % modulus() == 1,
{
    let g = G1::generator();
    Point { x: g.x.into(), y: g.y.into(), z: g.z.into() }
}

/// Relies on `Add for G1`: the group law.
#[verifier::external_body]
fn g1_add(p: &Point, o: &Point) -> (r: Point)
    ensures
        g1_log(r.x@, r.y@, r.z@) % modulus() == (g1_log(p.x@, p.y@, p.z@) % modulus() + g1_log(o.x@, o.y@, o.z@) % modulus()) % modulus(),
{
    let a = G1 { x: Fq::from_raw(p.x), y: Fq::from_raw(p.y), z: Fq::from_raw(p.z) };
    let b = G1 { x: Fq::from_raw(o.x), y: Fq::from_raw(o.y), z: Fq::from_raw(o.z) };
    let g = a + b;
    Point { x: g.x.into(), y: g.y.into(), z: g.z.into() }
}

/// Relies on `Sub for G1`: adding the inverse.
#[verifier::external_body]
fn g1_sub(p: &Point, o: &Point) -> (r: Point)
    ensures
        g1_log(r.x@, r.y@, r.z@) % modulus() == (g1_log(p.x@, p.y@, p.z@) % modulus() - g1_log(o.x@, o.y@, o.z@) % modulus()) % modulus(),
{
    let a = G1 { x: Fq::from_raw(p.x), y: Fq::from_raw(p.y), z: Fq::from_raw(p.z) };
    let b = G1 { x: Fq::from_raw(o.x), y: Fq::from_raw(o.y), z: Fq::from_raw(o.z) };
    let g = a - b;
    Point { x: g.x.into(), y: g.y.into(), z: g.z.into() }
}

/// Relies on `G1::double`: the point added to itself.
#[verifier::external_body]
fn g1_double(p: &Point) -> (r: Point)
    ensures
        g1_log(r.x@, r.y@, r.z@) % modulus() == (2 * g1_log(p.x@, p.y@, p.z@) % modulus()) % modulus(),
{
    let a = G1 { x: Fq::from_raw(p.x), y: Fq::from_raw(p.y), z: Fq::from_raw(p.z) };
    let g = a.double();
    Point { x: g.x.into(), y: g.y.into(), z: g.z.into() }
}

/// Relies on `Mul<Fr> for G1`: the scalar action.
#[verifier::external_body]
fn g1_mul(p: &Point, s: &Scalar) -> (r: Point)
    requires
        s.wf(),
    ensures
        g1_log(r.x@, r.y@, r.z@) % modulus() == (g1_log(p.x@, p.y@, p.z@) % modulus() * s.value()) % modulus(),
{
    let a = G1 { x: Fq::from_raw(p.x), y: Fq::from_raw(p.y), z: Fq::from_raw(p.z) };
    let g = a * Fr::from_raw(s.limbs);
    Point { x: g.x.into(), y: g.y.into(), z: g.z.into() }
}

/// Relies on `PartialEq for G1`: equality of the points that the coordinates denote.
#[verifier::external_body]
fn g1_eq(p: &Point, o: &Point) -> (r: bool)
    ensures
        r == (g1_log(p.x@, p.y@, p.z@) % modulus() == g1_log(o.x@, o.y@, o.z@) % modulus()),
{
    let a = G1 { x: Fq::from_raw(p.x), y: Fq::from_raw(p.y), z: Fq::from_raw(p.z) };
    let b = G1 { x: Fq::from_raw(o.x), y: Fq::from_raw(o.y), z: Fq::from_raw(o.z) };
    a == b
}

/// Relies on `Curve::batch_normalize` for G1: every point in affine form, each the
/// same point as before.
#[verifier::external_body]
fn g1_batch_normalize(v: &Vec<Point>) -> (r: Vec<Point>)
    ensures
        r.len() == v.len(),
        forall|i: int| 0 <= i < v.len() ==> g1_log(#[trigger] r@[i].x@, r@[i].y@, r@[i].z@) % modulus()
            == g1_log(v@[i].x@, v@[i].y@, v@[i].z@) % modulus(),
{
    let p: Vec<G1> = v.iter().map(|a| G1 { x: Fq::from_raw(a.x), y: Fq::from_raw(a.y), z: Fq::from_raw(a.z) }).collect();
    let mut q = vec![G1Affine::identity(); p.len()];
    G1::batch_normalize(&p, &mut q);
    q.iter().map(|a| G1::from(*a)).map(|g| Point { x: g.x.into(), y: g.y.into(), z: g.z.into() }).collect()
}

} // verus!
