use vstd::prelude::*;

use crate::point::Point;

verus! {

/// `p` lies in the axis-aligned rectangle spanned by `lo` and `hi`,
/// inclusive.
pub open spec fn point_inside(p: Point, lo: Point, hi: Point) -> bool {
    &&& lo.x <= p.x
    &&& p.x <= hi.x
    &&& lo.y <= p.y
    &&& p.y <= hi.y
}

/// `(lo, hi)` is the componentwise min/max rectangle of `pts`: every point
/// lies inside it, and each of its four sides is attained by some point.
pub open spec fn is_bounding_box(pts: Seq<Point>, lo: Point, hi: Point) -> bool {
    &&& forall|i: int| 0 <= i < pts.len() ==> point_inside(#[trigger] pts[i], lo, hi)
    &&& exists|i: int| 0 <= i < pts.len() && (#[trigger] pts[i]).x == lo.x
    &&& exists|i: int| 0 <= i < pts.len() && (#[trigger] pts[i]).y == lo.y
    &&& exists|i: int| 0 <= i < pts.len() && (#[trigger] pts[i]).x == hi.x
    &&& exists|i: int| 0 <= i < pts.len() && (#[trigger] pts[i]).y == hi.y
}

/// The bounding box is the smallest rectangle covering the points: any
/// rectangle that contains every point contains it whole.
pub proof fn lemma_bounding_box_smallest(pts: Seq<Point>, lo: Point, hi: Point, a: Point, b: Point)
    requires
        is_bounding_box(pts, lo, hi),
        forall|i: int| 0 <= i < pts.len() ==> point_inside(#[trigger] pts[i], a, b),
    ensures
        a.x <= lo.x,
        a.y <= lo.y,
        hi.x <= b.x,
        hi.y <= b.y,
{
    let i0 = choose|i: int| 0 <= i < pts.len() && (#[trigger] pts[i]).x == lo.x;
    let i1 = choose|i: int| 0 <= i < pts.len() && (#[trigger] pts[i]).y == lo.y;
    let i2 = choose|i: int| 0 <= i < pts.len() && (#[trigger] pts[i]).x == hi.x;
    let i3 = choose|i: int| 0 <= i < pts.len() && (#[trigger] pts[i]).y == hi.y;
    assert(point_inside(pts[i0], a, b));
    assert(point_inside(pts[i1], a, b));
    assert(point_inside(pts[i2], a, b));
    assert(point_inside(pts[i3], a, b));
}

/// Every non-empty point sequence has a bounding box.
pub proof fn lemma_bounding_box_exists(pts: Seq<Point>)
    requires
        pts.len() > 0,
    ensures
        exists|b: (Point, Point)| is_bounding_box(pts, b.0, b.1),
    decreases pts.len(),
{
    if pts.len() == 1 {
        let b0 = (pts[0], pts[0]);
        assert(is_bounding_box(pts, b0.0, b0.1));
    } else {
        let rest = pts.drop_last();
        lemma_bounding_box_exists(rest);
        let b = choose|b: (Point, Point)| is_bounding_box(rest, b.0, b.1);
        let p = pts.last();
        let lo = Point {
            x: if p.x < b.0.x {
                p.x
            } else {
                b.0.x
            },
            y: if p.y < b.0.y {
                p.y
            } else {
                b.0.y
            },
        };
        let hi = Point {
            x: if p.x > b.1.x {
                p.x
            } else {
                b.1.x
            },
            y: if p.y > b.1.y {
                p.y
            } else {
                b.1.y
            },
        };
        assert forall|i: int| 0 <= i < pts.len() implies point_inside(#[trigger] pts[i], lo, hi) by {
            if i < pts.len() - 1 {
                assert(rest[i] == pts[i]);
                assert(point_inside(rest[i], b.0, b.1));
            }
        }
        assert(is_bounding_box(pts, lo, hi)) by {
            let i0 = choose|i: int| 0 <= i < rest.len() && (#[trigger] rest[i]).x == b.0.x;
            let i1 = choose|i: int| 0 <= i < rest.len() && (#[trigger] rest[i]).y == b.0.y;
            let i2 = choose|i: int| 0 <= i < rest.len() && (#[trigger] rest[i]).x == b.1.x;
            let i3 = choose|i: int| 0 <= i < rest.len() && (#[trigger] rest[i]).y == b.1.y;
            assert(pts[i0] == rest[i0] && pts[i1] == rest[i1] && pts[i2] == rest[i2] && pts[i3]
                == rest[i3]);
            assert(pts[pts.len() - 1] == p);
        }
        assert(exists|bb: (Point, Point)| is_bounding_box(pts, bb.0, bb.1)) by {
            let bw = (lo, hi);
            assert(is_bounding_box(pts, bw.0, bw.1));
        }
    }
}

/// A point sequence has at most one bounding box: being covering and attained
/// on all four sides pins both corners.
pub proof fn lemma_bounding_box_unique(pts: Seq<Point>, lo1: Point, hi1: Point, lo2: Point, hi2: Point)
    requires
        is_bounding_box(pts, lo1, hi1),
        is_bounding_box(pts, lo2, hi2),
    ensures
        lo1 == lo2,
        hi1 == hi2,
{
    lemma_bounding_box_smallest(pts, lo1, hi1, lo2, hi2);
    lemma_bounding_box_smallest(pts, lo2, hi2, lo1, hi1);
}

/// The bounding box of a non-empty point sequence, as a spec-level value.
pub open spec fn bbox_of(pts: Seq<Point>) -> (Point, Point)
    recommends
        pts.len() > 0,
{
    choose|b: (Point, Point)| is_bounding_box(pts, b.0, b.1)
}

/// A witnessed bounding box is the spec-level [`bbox_of`] value.
proof fn lemma_bbox_of_is(pts: Seq<Point>, lo: Point, hi: Point)
    requires
        is_bounding_box(pts, lo, hi),
    ensures
        bbox_of(pts) == (lo, hi),
{
    assert(exists|b: (Point, Point)| is_bounding_box(pts, b.0, b.1)) by {
        let bw = (lo, hi);
        assert(is_bounding_box(pts, bw.0, bw.1));
    }
    let b = bbox_of(pts);
    assert(is_bounding_box(pts, b.0, b.1));
    lemma_bounding_box_unique(pts, b.0, b.1, lo, hi);
}

/// One connected component of "on" cells: an insertion-ordered collection of
/// cell coordinates, a reference offset locating it within the larger image,
/// and a lazily cached bounding box, invalidated on every insertion.
pub struct VisualObject {
    /// Maps the points back to the original picture.
    pub reference: Point,
    /// All points the object contains.
    pub points: Vec<Point>,
    /// Cached bounding box: the componentwise lowest and highest corners of
    /// the point set, absent until queried.
    pub size: Option<(Point, Point)>,
}

impl VisualObject {
    /// The cache, when filled, holds the true bounding box of a non-empty
    /// point set.
    pub open spec fn wf(self) -> bool {
        self.size matches Some(b) ==> self.points@.len() > 0 && is_bounding_box(
            self.points@,
            b.0,
            b.1,
        )
    }

    /// A fresh, empty object anchored at `reference`.
    pub fn new(reference: Point) -> (o: VisualObject)
        ensures
            o.wf(),
            o.reference == reference,
            o.points@ == Seq::<Point>::empty(),
            o.size is None,
    {
        VisualObject { reference, points: Vec::new(), size: None }
    }

    /// Appends a point and invalidates the cached bounding box.
    pub fn push(&mut self, point: Point)
        requires
            old(self).wf(),
        ensures
            final(self).wf(),
            final(self).reference == old(self).reference,
            final(self).points@ == old(self).points@.push(point),
            final(self).size is None,
    {
        self.points.push(point);
        self.size = None;
    }

    /// The smallest rectangle that encapsulates every point of the object:
    /// `None` when the object is empty, otherwise the componentwise
    /// (lowest, highest) corner pair, cached until the next insertion.
    #[verifier::loop_isolation(false)]
    pub fn size(&mut self) -> (r: Option<(Point, Point)>)
        requires
            old(self).wf(),
        ensures
            final(self).wf(),
            final(self).reference == old(self).reference,
            final(self).points@ == old(self).points@,
            final(self).size == r,
            r is None <==> old(self).points@.len() == 0,
            r matches Some(b) ==> is_bounding_box(old(self).points@, b.0, b.1),
            r matches Some(b) ==> b == bbox_of(old(self).points@),
    {
        if self.points.len() == 0 {
            return None;
        }
        match self.size {
            Some(b) => {
                proof {
                    lemma_bbox_of_is(self.points@, b.0, b.1);
                }
                return Some(b);
            },
            None => {
            },
        }
        let ghost pts = self.points@;
        let first = self.points[0];
        let mut lo = first;
        let mut hi = first;
        let mut i: usize = 1;
        while i < self.points.len()
            invariant
                1 <= i <= pts.len(),
                forall|j: int| 0 <= j < i ==> point_inside(#[trigger] pts[j], lo, hi),
                exists|j: int| 0 <= j < i && (#[trigger] pts[j]).x == lo.x,
                exists|j: int| 0 <= j < i && (#[trigger] pts[j]).y == lo.y,
                exists|j: int| 0 <= j < i && (#[trigger] pts[j]).x == hi.x,
                exists|j: int| 0 <= j < i && (#[trigger] pts[j]).y == hi.y,
            decreases pts.len() - i,
        {
            let p = self.points[i];
            let new_lo = Point {
                x: if p.x < lo.x {
                    p.x
                } else {
                    lo.x
                },
                y: if p.y < lo.y {
                    p.y
                } else {
                    lo.y
                },
            };
            let new_hi = Point {
                x: if p.x > hi.x {
                    p.x
                } else {
                    hi.x
                },
                y: if p.y > hi.y {
                    p.y
                } else {
                    hi.y
                },
            };
            lo = new_lo;
            hi = new_hi;
            i = i + 1;
        }
        proof {
            lemma_bbox_of_is(pts, lo, hi);
        }
        self.size = Some((lo, hi));
        Some((lo, hi))
    }

    /// Re-rasterizes the object's own local patch: a boolean grid spanning
    /// the bounding box, true exactly at the object's points, with
    /// coordinates relative to the box's lowest corner. `None` when the
    /// object is empty.
    #[verifier::loop_isolation(false)]
    pub fn point_map(&mut self) -> (r: Option<Vec<Vec<bool>>>)
        requires
            old(self).wf(),
            forall|i: int|
                0 <= i < old(self).points@.len() ==> (#[trigger] old(self).points@[i]).x
                    < usize::MAX && old(self).points@[i].y < usize::MAX,
        ensures
            final(self).wf(),
            final(self).reference == old(self).reference,
            final(self).points@ == old(self).points@,
            r is None <==> old(self).points@.len() == 0,
            r matches Some(m) ==> (final(self).size matches Some(b) && is_bounding_box(
                old(self).points@,
                b.0,
                b.1,
            ) && m@.len() == b.1.y - b.0.y + 1 && (forall|row: int|
                0 <= row < m@.len() ==> (#[trigger] m@[row])@.len() == b.1.x - b.0.x + 1) && (
            forall|row: int, col: int|
                0 <= row < m@.len() && 0 <= col < b.1.x - b.0.x + 1 ==> #[trigger] m@[row]@[col]
                    == old(self).points@.contains(
                    (Point { x: (b.0.x + col) as u32, y: (b.0.y + row) as u32 }),
                ))),
    {
        let size = self.size();
        if size.is_none() {
            return None;
        }
        let (lo, hi) = size.unwrap();
        let ghost pts = self.points@;
        proof {
            let i0 = choose|i: int| 0 <= i < pts.len() && (#[trigger] pts[i]).x == hi.x;
            assert(point_inside(pts[i0], lo, hi));
            assert(hi.x < usize::MAX);
            let i1 = choose|i: int| 0 <= i < pts.len() && (#[trigger] pts[i]).y == hi.y;
            assert(point_inside(pts[i1], lo, hi));
            assert(hi.y < usize::MAX);
        }
        let width = (hi.x - lo.x) as usize + 1;
        let height = (hi.y - lo.y) as usize + 1;
        let mut map: Vec<Vec<bool>> = Vec::new();
        let mut row: usize = 0;
        while row < height
            invariant
                row <= height,
                map@.len() == row,
                forall|r0: int| 0 <= r0 < row ==> (#[trigger] map@[r0])@.len() == width,
                forall|r0: int, c0: int|
                    0 <= r0 < row && 0 <= c0 < width ==> #[trigger] map@[r0]@[c0] == pts.contains(
                        (Point { x: (lo.x + c0) as u32, y: (lo.y + r0) as u32 }),
                    ),
            decreases height - row,
        {
            let mut line: Vec<bool> = Vec::new();
            let mut col: usize = 0;
            while col < width
                invariant
                    col <= width,
                    row < height,
                    line@.len() == col,
                    forall|c0: int|
                        0 <= c0 < col ==> #[trigger] line@[c0] == pts.contains(
                            (Point { x: (lo.x + c0) as u32, y: (lo.y + row) as u32 }),
                        ),
                decreases width - col,
            {
                let target = Point { x: lo.x + col as u32, y: lo.y + row as u32 };
                line.push(contains_point(&self.points, target));
                col = col + 1;
            }
            map.push(line);
            row = row + 1;
        }
        Some(map)
    }
}

/// Linear scan for an exact point match.
pub fn contains_point(pts: &Vec<Point>, q: Point) -> (r: bool)
    ensures
        r == pts@.contains(q),
{
    let mut i: usize = 0;
    while i < pts.len()
        invariant
            i <= pts@.len(),
            forall|j: int| 0 <= j < i ==> pts@[j] != q,
        decreases pts@.len() - i,
    {
        if pts[i] == q {
            return true;
        }
        i = i + 1;
    }
    false
}

} // verus!
