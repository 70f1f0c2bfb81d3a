//! Grid points, axis-aligned boxes and rigid grid transforms.
//!
//! Everything here is exact integer arithmetic on the schematic grid: there
//! is no tolerance and no rounding.

use vstd::prelude::*;

verus! {

/// A location on the schematic's design grid.
#[derive(Clone, Copy, Debug, PartialEq, Eq, Structural, Hash)]
pub struct SSPoint {
    pub x: i16,
    pub y: i16,
}

impl Default for SSPoint {
    /// The origin.
    fn default() -> (p: SSPoint)
        ensures
            p == (SSPoint { x: 0, y: 0 }),
    {
        SSPoint { x: 0, y: 0 }
    }
}

impl SSPoint {
    /// The grid point `(x, y)`.
    pub fn new(x: i16, y: i16) -> (p: SSPoint)
        ensures
            p == (SSPoint { x, y }),
    {
        SSPoint { x, y }
    }

    /// The point as a coordinate pair, the form in which it keys the graph.
    pub open spec fn key(self) -> (i16, i16) {
        (self.x, self.y)
    }

    /// The point that a coordinate pair stands for.
    pub open spec fn at(k: (i16, i16)) -> SSPoint {
        SSPoint { x: k.0, y: k.1 }
    }

    /// The point as a coordinate pair.
    pub fn to_key(self) -> (k: (i16, i16))
        ensures
            k == self.key(),
    {
        (self.x, self.y)
    }

    /// The point that the coordinate pair `k` stands for.
    pub fn from_key(k: (i16, i16)) -> (p: SSPoint)
        ensures
            p == SSPoint::at(k),
            p.key() == k,
    {
        SSPoint { x: k.0, y: k.1 }
    }
}

/// The two points share a grid line.
pub open spec fn axis_aligned(a: SSPoint, b: SSPoint) -> bool {
    a.x == b.x || a.y == b.y
}

/// `lo <= v <= hi` or `hi <= v <= lo`.
pub open spec fn between(lo: i16, hi: i16, v: i16) -> bool {
    (lo <= v && v <= hi) || (hi <= v && v <= lo)
}

/// `p` lies on the closed segment from `a` to `b`, which runs along a grid line.
pub open spec fn on_segment(a: SSPoint, b: SSPoint, p: SSPoint) -> bool {
    ||| (a.x == b.x && p.x == a.x && between(a.y, b.y, p.y))
    ||| (a.y == b.y && p.y == a.y && between(a.x, b.x, p.x))
}

/// `p` lies on the segment from `a` to `b` and is neither of its ends.
pub open spec fn strictly_inside(a: SSPoint, b: SSPoint, p: SSPoint) -> bool {
    on_segment(a, b, p) && p != a && p != b
}

/// An axis-aligned box given by two corners. Nothing forces `min` to be the
/// smaller corner: a box whose `max` lies below or left of its `min` is
/// negative and contains nothing.
#[derive(Clone, Copy, Debug, PartialEq, Eq, Structural, Hash)]
pub struct SSBox {
    pub min: SSPoint,
    pub max: SSPoint,
}

impl Default for SSBox {
    /// The box at the origin with no extent.
    fn default() -> (b: SSBox)
        ensures
            b == SSBox::zero(),
    {
        SSBox { min: SSPoint { x: 0, y: 0 }, max: SSPoint { x: 0, y: 0 } }
    }
}

impl SSBox {
    /// The box with the corners `min` and `max`, taken as they are.
    pub fn new(min: SSPoint, max: SSPoint) -> (b: SSBox)
        ensures
            b == (SSBox { min, max }),
    {
        SSBox { min, max }
    }

    /// The box at the origin with no extent.
    pub open spec fn zero() -> SSBox {
        SSBox { min: SSPoint { x: 0, y: 0 }, max: SSPoint { x: 0, y: 0 } }
    }

    /// `p` lies inside the box or on its border.
    pub open spec fn covers(self, p: SSPoint) -> bool {
        self.min.x <= p.x && p.x <= self.max.x && self.min.y <= p.y && p.y <= self.max.y
    }

    /// The box is the tightest one that covers every point of `pts`: all of
    /// them lie in it, and each of its four sides touches one of them.
    pub open spec fn is_hull_of(self, pts: Seq<SSPoint>) -> bool {
        &&& forall|i: int| 0 <= i < pts.len() ==> self.covers(#[trigger] pts[i])
        &&& exists|i: int| 0 <= i < pts.len() && (#[trigger] pts[i]).x == self.min.x
        &&& exists|i: int| 0 <= i < pts.len() && (#[trigger] pts[i]).x == self.max.x
        &&& exists|i: int| 0 <= i < pts.len() && (#[trigger] pts[i]).y == self.min.y
        &&& exists|i: int| 0 <= i < pts.len() && (#[trigger] pts[i]).y == self.max.y
    }

    /// The tightest box around two points.
    pub open spec fn spanning(a: SSPoint, b: SSPoint) -> SSBox {
        SSBox {
            min: SSPoint { x: if a.x <= b.x { a.x } else { b.x }, y: if a.y <= b.y { a.y } else { b.y } },
            max: SSPoint { x: if a.x <= b.x { b.x } else { a.x }, y: if a.y <= b.y { b.y } else { a.y } },
        }
    }

    /// The interiors of the two boxes overlap. Boxes that only share a border
    /// do not intersect, and a box without extent in one direction intersects
    /// another only where it passes strictly through it.
    pub open spec fn overlaps(self, other: SSBox) -> bool {
        &&& self.min.x < other.max.x
        &&& self.max.x > other.min.x
        &&& self.min.y < other.max.y
        &&& self.max.y > other.min.y
    }

    /// The tightest box around the given points; the zero box if there are none.
    pub fn from_points(pts: &Vec<SSPoint>) -> (b: SSBox)
        ensures
            pts@.len() == 0 ==> b == SSBox::zero(),
            pts@.len() > 0 ==> b.is_hull_of(pts@),
    {
        if pts.len() == 0 {
            return SSBox { min: SSPoint { x: 0, y: 0 }, max: SSPoint { x: 0, y: 0 } };
        }
        let first = pts[0];
        let mut b = SSBox { min: first, max: first };
        let mut i: usize = 1;
        proof {
            let one = pts@.take(1);
            assert(one[0] == first);
        }
        while i < pts.len()
            invariant
                1 <= i <= pts.len(),
                b.is_hull_of(pts@.take(i as int)),
            decreases pts.len() - i,
        {
            let p = pts[i];
            let ghost prev = b;
            let ghost seen = pts@.take(i as int);
            let ghost next = pts@.take(i as int + 1);
            if p.x < b.min.x {
                b.min.x = p.x;
            }
            if p.x > b.max.x {
                b.max.x = p.x;
            }
            if p.y < b.min.y {
                b.min.y = p.y;
            }
            if p.y > b.max.y {
                b.max.y = p.y;
            }
            proof {
                assert(next[i as int] == p);
                assert forall|j: int| 0 <= j < next.len() implies b.covers(#[trigger] next[j]) by {
                    if j < i {
                        assert(next[j] == seen[j]);
                        assert(prev.covers(seen[j]));
                    }
                }
                let ix0 = choose|j: int| 0 <= j < seen.len() && (#[trigger] seen[j]).x == prev.min.x;
                let ix1 = choose|j: int| 0 <= j < seen.len() && (#[trigger] seen[j]).x == prev.max.x;
                let iy0 = choose|j: int| 0 <= j < seen.len() && (#[trigger] seen[j]).y == prev.min.y;
                let iy1 = choose|j: int| 0 <= j < seen.len() && (#[trigger] seen[j]).y == prev.max.y;
                assert(next[ix0] == seen[ix0] && next[ix1] == seen[ix1]);
                assert(next[iy0] == seen[iy0] && next[iy1] == seen[iy1]);
                let jx0 = if p.x < prev.min.x { i as int } else { ix0 };
                let jx1 = if p.x > prev.max.x { i as int } else { ix1 };
                let jy0 = if p.y < prev.min.y { i as int } else { iy0 };
                let jy1 = if p.y > prev.max.y { i as int } else { iy1 };
                assert(next[jx0].x == b.min.x);
                assert(next[jx1].x == b.max.x);
                assert(next[jy0].y == b.min.y);
                assert(next[jy1].y == b.max.y);
            }
            i += 1;
        }
        proof {
            assert(pts@.take(pts@.len() as int) =~= pts@);
        }
        b
    }

    /// The tightest box around two points.
    pub fn from_pair(a: SSPoint, b: SSPoint) -> (r: SSBox)
        ensures
            r == SSBox::spanning(a, b),
            r.is_hull_of(seq![a, b]),
    {
        let r = SSBox {
            min: SSPoint { x: if a.x <= b.x { a.x } else { b.x }, y: if a.y <= b.y { a.y } else { b.y } },
            max: SSPoint { x: if a.x <= b.x { b.x } else { a.x }, y: if a.y <= b.y { b.y } else { a.y } },
        };
        proof {
            let s = seq![a, b];
            assert(s[0] == a && s[1] == b);
            let jx0: int = if a.x <= b.x { 0 } else { 1 };
            let jy0: int = if a.y <= b.y { 0 } else { 1 };
            assert(s[jx0].x == r.min.x);
            assert(s[1 - jx0].x == r.max.x);
            assert(s[jy0].y == r.min.y);
            assert(s[1 - jy0].y == r.max.y);
        }
        r
    }

    /// Whether the interiors of the two boxes overlap.
    pub fn intersects(&self, other: &SSBox) -> (r: bool)
        ensures
            r == self.overlaps(*other),
    {
        self.min.x < other.max.x && self.max.x > other.min.x && self.min.y < other.max.y
            && self.max.y > other.min.y
    }

    /// Whether `p` lies inside the box or on its border.
    pub fn contains_inclusive(&self, p: SSPoint) -> (r: bool)
        ensures
            r == self.covers(p),
    {
        self.min.x <= p.x && p.x <= self.max.x && self.min.y <= p.y && p.y <= self.max.y
    }
}

/// The box spanned by the ends of a segment along a grid line covers exactly
/// the points of the segment.
pub proof fn lemma_span_covers_segment(a: SSPoint, b: SSPoint, p: SSPoint)
    requires
        axis_aligned(a, b),
    ensures
        SSBox::spanning(a, b).covers(p) == on_segment(a, b, p),
{
}

/// An affine map of the grid with integer coefficients: `(x, y)` goes to
/// `(x*m11 + y*m21 + m31, x*m12 + y*m22 + m32)`.
#[derive(Clone, Copy, Debug, PartialEq, Eq, Structural, Hash)]
pub struct SSTransform {
    pub m11: i16,
    pub m12: i16,
    pub m21: i16,
    pub m22: i16,
    pub m31: i16,
    pub m32: i16,
}

impl SSTransform {
    /// The transform with the given coefficients.
    pub fn new(m11: i16, m12: i16, m21: i16, m22: i16, m31: i16, m32: i16) -> (t: SSTransform)
        ensures
            t == (SSTransform { m11, m12, m21, m22, m31, m32 }),
    {
        SSTransform { m11, m12, m21, m22, m31, m32 }
    }

    /// The transform that moves nothing.
    pub fn identity() -> (t: SSTransform)
        ensures
            t == (SSTransform { m11: 1, m12: 0, m21: 0, m22: 1, m31: 0, m32: 0 }),
            t.rigid(),
    {
        SSTransform { m11: 1, m12: 0, m21: 0, m22: 1, m31: 0, m32: 0 }
    }

    /// The transform that shifts every point by `(dx, dy)`.
    pub fn translation(dx: i16, dy: i16) -> (t: SSTransform)
        ensures
            t == (SSTransform { m11: 1, m12: 0, m21: 0, m22: 1, m31: dx, m32: dy }),
            t.rigid(),
    {
        SSTransform { m11: 1, m12: 0, m21: 0, m22: 1, m31: dx, m32: dy }
    }

    /// First coordinate of the image of `p`, whether or not it fits the grid.
    pub open spec fn image_x(self, p: SSPoint) -> int {
        p.x * self.m11 + p.y * self.m21 + self.m31
    }

    /// Second coordinate of the image of `p`, whether or not it fits the grid.
    pub open spec fn image_y(self, p: SSPoint) -> int {
        p.x * self.m12 + p.y * self.m22 + self.m32
    }

    /// The image of `p` is a grid point that the coordinate type can hold.
    pub open spec fn fits(self, p: SSPoint) -> bool {
        &&& i16::MIN <= self.image_x(p) <= i16::MAX
        &&& i16::MIN <= self.image_y(p) <= i16::MAX
    }

    /// The image of `p`, where it fits.
    pub open spec fn image(self, p: SSPoint) -> SSPoint {
        SSPoint { x: self.image_x(p) as i16, y: self.image_y(p) as i16 }
    }

    /// The linear part is a quarter-turn rotation, a mirroring, or a
    /// combination of the two, so that grid lines go to grid lines and
    /// distinct points to distinct points.
    pub open spec fn rigid(self) -> bool {
        ||| (self.m12 == 0 && self.m21 == 0 && (self.m11 == 1 || self.m11 == -1) && (self.m22 == 1
            || self.m22 == -1))
        ||| (self.m11 == 0 && self.m22 == 0 && (self.m12 == 1 || self.m12 == -1) && (self.m21 == 1
            || self.m21 == -1))
    }

    /// Whether the image of `p` can be held, computed without overflow.
    pub fn can_transform(&self, p: SSPoint) -> (r: bool)
        ensures
            r == self.fits(p),
    {
        let (x, y) = self.wide_image(p);
        -32768 <= x && x <= 32767 && -32768 <= y && y <= 32767
    }

    /// The image of `p`.
    pub fn transform_point(&self, p: SSPoint) -> (q: SSPoint)
        requires
            self.fits(p),
        ensures
            q == self.image(p),
            q.x == self.image_x(p),
            q.y == self.image_y(p),
    {
        let (x, y) = self.wide_image(p);
        SSPoint { x: x as i16, y: y as i16 }
    }

    /// The image of `p`, or `None` where it falls off the grid.
    pub fn try_transform_point(&self, p: SSPoint) -> (q: Option<SSPoint>)
        ensures
            q.is_some() == self.fits(p),
            q.is_some() ==> q.unwrap() == self.image(p),
    {
        if self.can_transform(p) {
            Some(self.transform_point(p))
        } else {
            None
        }
    }

    /// The two coordinates of the image of `p`, in a type that holds them
    /// whatever they are.
    fn wide_image(&self, p: SSPoint) -> (r: (i64, i64))
        ensures
            r.0 == self.image_x(p),
            r.1 == self.image_y(p),
    {
        let px: i64 = p.x as i64;
        let py: i64 = p.y as i64;
        proof {
            lemma_product_bound(p.x as int, self.m11 as int);
            lemma_product_bound(p.y as int, self.m21 as int);
            lemma_product_bound(p.x as int, self.m12 as int);
            lemma_product_bound(p.y as int, self.m22 as int);
        }
        let x: i64 = px * (self.m11 as i64) + py * (self.m21 as i64) + (self.m31 as i64);
        let y: i64 = px * (self.m12 as i64) + py * (self.m22 as i64) + (self.m32 as i64);
        (x, y)
    }
}

/// The product of two coordinates is small.
proof fn lemma_product_bound(a: int, b: int)
    requires
        -32768 <= a <= 32767,
        -32768 <= b <= 32767,
    ensures
        -1073741824 <= a * b <= 1073741824,
{
    assert(-1073741824 <= a * b <= 1073741824) by (nonlinear_arith)
        requires
            -32768 <= a <= 32767,
            -32768 <= b <= 32767,
    ;
}

/// A rigid transform sends a segment along a grid line to a segment along a
/// grid line, keeps distinct points distinct, and keeps a point on the
/// segment on the image of the segment.
pub proof fn lemma_rigid_keeps_segments(t: SSTransform, a: SSPoint, b: SSPoint, p: SSPoint)
    requires
        t.rigid(),
        t.fits(a),
        t.fits(b),
        t.fits(p),
    ensures
        axis_aligned(a, b) ==> axis_aligned(t.image(a), t.image(b)),
        a != b ==> t.image(a) != t.image(b),
        axis_aligned(a, b) ==> (on_segment(a, b, p) <==> on_segment(
            t.image(a),
            t.image(b),
            t.image(p),
        )),
{
    lemma_rigid_images(t, a);
    lemma_rigid_images(t, b);
    lemma_rigid_images(t, p);
}

/// Under a rigid transform each image coordinate is one source coordinate,
/// kept or negated, plus the shift.
pub proof fn lemma_rigid_images(t: SSTransform, p: SSPoint)
    requires
        t.rigid(),
    ensures
        t.m12 == 0 ==> t.image_x(p) == p.x * t.m11 + t.m31 && t.image_y(p) == p.y * t.m22 + t.m32,
        t.m11 == 0 ==> t.image_x(p) == p.y * t.m21 + t.m31 && t.image_y(p) == p.x * t.m12 + t.m32,
        t.m11 == 1 ==> p.x * t.m11 == p.x,
        t.m11 == -1 ==> p.x * t.m11 == -p.x,
        t.m22 == 1 ==> p.y * t.m22 == p.y,
        t.m22 == -1 ==> p.y * t.m22 == -p.y,
        t.m12 == 1 ==> p.x * t.m12 == p.x,
        t.m12 == -1 ==> p.x * t.m12 == -p.x,
        t.m21 == 1 ==> p.y * t.m21 == p.y,
        t.m21 == -1 ==> p.y * t.m21 == -p.y,
{
    assert(p.x * 0 == 0 && p.y * 0 == 0) by (nonlinear_arith);
    assert(p.x * 1 == p.x && p.y * 1 == p.y) by (nonlinear_arith);
    assert(p.x * (-1) == -p.x && p.y * (-1) == -p.y) by (nonlinear_arith);
}

} // verus!
