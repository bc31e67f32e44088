use vstd::prelude::*;

use crate::grid::{flat_index, lemma_flat_index_bound, lemma_flat_index_injective, Grid};
use crate::point::{is_neighbor, Point};
use crate::visual_object::VisualObject;

verus! {

/// The set of cells that are on in a row-major boolean buffer of the given
/// dimensions.
pub open spec fn on_points(s: Seq<bool>, w: int, h: int) -> Set<Point> {
    Set::new(
        |p: Point| (p.x as int) < w && (p.y as int) < h && s[flat_index(w, p.x as int, p.y as int)],
    )
}

/// The set of cells that are on in a point grid.
pub open spec fn on_set(g: Grid<bool>) -> Set<Point> {
    on_points(g.cells@, g.width as int, g.height as int)
}

/// The points appended to `pre` on the way to `post`.
pub open spec fn gained(pre: Seq<Point>, post: Seq<Point>) -> Seq<Point> {
    post.skip(pre.len() as int)
}

/// The union of the point sets of all objects in the sequence.
pub open spec fn pts_union(objs: Seq<VisualObject>) -> Set<Point>
    decreases objs.len(),
{
    if objs.len() == 0 {
        Set::<Point>::empty()
    } else {
        pts_union(objs.drop_last()).union(objs.last().points@.to_set())
    }
}

/// No cell belongs to two objects of the sequence.
pub open spec fn pairwise_disjoint(objs: Seq<VisualObject>) -> bool {
    forall|i: int, j: int|
        0 <= i < objs.len() && 0 <= j < objs.len() && i != j ==> (
        #[trigger] objs[i]).points@.to_set().disjoint((#[trigger] objs[j]).points@.to_set())
}

/// No point of `a` touches a point of `b`, orthogonally or diagonally.
pub open spec fn separated(a: Seq<Point>, b: Seq<Point>) -> bool {
    forall|p: Point, q: Point|
        #[trigger] a.contains(p) && #[trigger] b.contains(q) ==> !is_neighbor(p, q)
}

/// No two objects of the sequence touch, so distinct objects really are
/// distinct connected regions.
pub open spec fn pairwise_separated(objs: Seq<VisualObject>) -> bool {
    forall|i: int, j: int|
        0 <= i < objs.len() && 0 <= j < objs.len() && i != j ==> separated(
            (#[trigger] objs[i]).points@,
            (#[trigger] objs[j]).points@,
        )
}

/// No cell of any object has an on neighbour left in the grid.
pub open spec fn isolated_from(objs: Seq<VisualObject>, g: Grid<bool>) -> bool {
    forall|i: int, p: Point, q: Point|
        #![trigger objs[i].points@.contains(p), on_set(g).contains(q)]
        0 <= i < objs.len() && objs[i].points@.contains(p) && is_neighbor(p, q) ==> !on_set(
            g,
        ).contains(q)
}

/// `path` walks through `s`: every step moves to a Moore-adjacent cell.
pub open spec fn is_path(path: Seq<Point>, s: Set<Point>) -> bool {
    &&& path.len() > 0
    &&& forall|i: int| 0 <= i < path.len() ==> s.contains(#[trigger] path[i])
    &&& forall|i: int| #![trigger path[i]] 0 <= i < path.len() - 1 ==> is_neighbor(
        path[i],
        path[i + 1],
    )
}

/// `b` is reachable from `a` through Moore-adjacent cells of `s`.
pub open spec fn connected_in(s: Set<Point>, a: Point, b: Point) -> bool {
    exists|path: Seq<Point>| is_path(path, s) && path.first() == a && path.last() == b
}

/// Every two points of the sequence are joined by a path of Moore-adjacent
/// cells that stays inside the sequence's own point set: the points form one
/// connected region.
pub open spec fn all_connected(pts: Seq<Point>) -> bool {
    forall|p: Point, q: Point|
        #[trigger] pts.contains(p) && #[trigger] pts.contains(q) ==> connected_in(
            pts.to_set(),
            p,
            q,
        )
}

proof fn lemma_connected_refl(s: Set<Point>, a: Point)
    requires
        s.contains(a),
    ensures
        connected_in(s, a, a),
{
    let path = seq![a];
    assert(is_path(path, s) && path.first() == a && path.last() == a);
}

proof fn lemma_connected_monotone(s1: Set<Point>, s2: Set<Point>, a: Point, b: Point)
    requires
        connected_in(s1, a, b),
        s1.subset_of(s2),
    ensures
        connected_in(s2, a, b),
{
    let path = choose|path: Seq<Point>|
        is_path(path, s1) && path.first() == a && path.last() == b;
    assert(is_path(path, s2)) by {
        assert forall|i: int| 0 <= i < path.len() implies s2.contains(#[trigger] path[i]) by {
            assert(s1.contains(path[i]));
        }
    }
    assert(is_path(path, s2) && path.first() == a && path.last() == b);
}

proof fn lemma_connected_extend(s: Set<Point>, a: Point, b: Point, c: Point)
    requires
        connected_in(s, a, b),
        is_neighbor(b, c),
        s.contains(c),
    ensures
        connected_in(s, a, c),
{
    let path = choose|path: Seq<Point>|
        is_path(path, s) && path.first() == a && path.last() == b;
    let p2 = path.push(c);
    assert(is_path(p2, s)) by {
        assert forall|i: int| 0 <= i < p2.len() implies s.contains(#[trigger] p2[i]) by {
            if i < path.len() {
                assert(p2[i] == path[i]);
            }
        }
        assert forall|i: int| #![trigger p2[i]] 0 <= i < p2.len() - 1 implies is_neighbor(
            p2[i],
            p2[i + 1],
        ) by {
            if i < path.len() - 1 {
                assert(p2[i] == path[i] && p2[i + 1] == path[i + 1]);
            } else {
                assert(p2[i] == path.last() && p2[i + 1] == c);
            }
        }
    }
    assert(p2.first() == a && p2.last() == c);
    assert(is_path(p2, s) && p2.first() == a && p2.last() == c);
}

proof fn lemma_connected_sym(s: Set<Point>, a: Point, b: Point)
    requires
        connected_in(s, a, b),
    ensures
        connected_in(s, b, a),
{
    let path = choose|path: Seq<Point>|
        is_path(path, s) && path.first() == a && path.last() == b;
    let rev = path.reverse();
    assert(is_path(rev, s)) by {
        assert forall|i: int| 0 <= i < rev.len() implies s.contains(#[trigger] rev[i]) by {
            assert(rev[i] == path[path.len() - 1 - i]);
        }
        assert forall|i: int| #![trigger rev[i]] 0 <= i < rev.len() - 1 implies is_neighbor(
            rev[i],
            rev[i + 1],
        ) by {
            let j = path.len() - 2 - i;
            assert(rev[i] == path[j + 1] && rev[i + 1] == path[j]);
            assert(is_neighbor(path[j], path[j + 1]));
        }
    }
    assert(rev.first() == b && rev.last() == a);
    assert(is_path(rev, s) && rev.first() == b && rev.last() == a);
}

proof fn lemma_connected_trans(s: Set<Point>, a: Point, b: Point, c: Point)
    requires
        connected_in(s, a, b),
        connected_in(s, b, c),
    ensures
        connected_in(s, a, c),
{
    let p1 = choose|path: Seq<Point>| is_path(path, s) && path.first() == a && path.last() == b;
    let p2 = choose|path: Seq<Point>| is_path(path, s) && path.first() == b && path.last() == c;
    if p2.len() == 1 {
        assert(b == c);
        assert(is_path(p1, s) && p1.first() == a && p1.last() == c);
    } else {
        let joined = p1 + p2.skip(1);
        assert(is_path(joined, s)) by {
            assert forall|i: int| 0 <= i < joined.len() implies s.contains(
                #[trigger] joined[i],
            ) by {
                if i < p1.len() {
                    assert(joined[i] == p1[i]);
                } else {
                    assert(joined[i] == p2[i - p1.len() + 1]);
                }
            }
            assert forall|i: int| #![trigger joined[i]] 0 <= i < joined.len() - 1 implies
                is_neighbor(joined[i], joined[i + 1]) by {
                if i < p1.len() - 1 {
                    assert(joined[i] == p1[i] && joined[i + 1] == p1[i + 1]);
                } else if i == p1.len() - 1 {
                    assert(joined[i] == p1.last());
                    assert(joined[i + 1] == p2[1]);
                    assert(p1.last() == b && p2[0] == b);
                    assert(is_neighbor(p2[0], p2[1]));
                } else {
                    let j = i - p1.len() + 1;
                    assert(joined[i] == p2[j] && joined[i + 1] == p2[j + 1]);
                    assert(is_neighbor(p2[j], p2[j + 1]));
                }
            }
        }
        assert(joined.first() == a && joined.last() == c);
        assert(is_path(joined, s) && joined.first() == a && joined.last() == c);
    }
}

/// A set whose every point is reachable from one seed is pairwise connected.
proof fn lemma_seed_connectivity_pairwise(s: Set<Point>, seed: Point)
    requires
        forall|p: Point| #[trigger] s.contains(p) ==> connected_in(s, seed, p),
    ensures
        forall|p: Point, q: Point|
            #[trigger] s.contains(p) && #[trigger] s.contains(q) ==> connected_in(s, p, q),
{
    assert forall|p: Point, q: Point|
        #[trigger] s.contains(p) && #[trigger] s.contains(q) implies connected_in(s, p, q) by {
        lemma_connected_sym(s, seed, p);
        lemma_connected_trans(s, p, seed, q);
    }
}

/// Number of on cells in the buffer: the termination measure of the fill.
pub open spec fn count_on(s: Seq<bool>) -> nat
    decreases s.len(),
{
    if s.len() == 0 {
        0
    } else {
        count_on(s.drop_last()) + (if s.last() {
            1nat
        } else {
            0nat
        })
    }
}

/// Clearing an on cell strictly shrinks the on-cell count.
proof fn lemma_count_on_clear(s: Seq<bool>, i: int)
    requires
        0 <= i < s.len(),
        s[i],
    ensures
        count_on(s.update(i, false)) < count_on(s),
    decreases s.len(),
{
    let t = s.update(i, false);
    if i == s.len() - 1 {
        assert(t.drop_last() =~= s.drop_last());
        assert(t.last() == false);
        assert(s.last());
    } else {
        assert(t.drop_last() =~= s.drop_last().update(i, false));
        assert(t.last() == s.last());
        assert(s.drop_last()[i] == s[i]);
        lemma_count_on_clear(s.drop_last(), i);
    }
}

proof fn lemma_to_set_push<A>(s: Seq<A>, v: A)
    ensures
        s.push(v).to_set() == s.to_set().insert(v),
{
    lemma_contains_push(s, v);
    assert forall|q: A| s.push(v).to_set().contains(q) == s.to_set().insert(v).contains(q) by {
        assert(s.push(v).contains(q) <==> s.contains(q) || q == v);
    }
    assert(s.push(v).to_set() =~= s.to_set().insert(v));
}

proof fn lemma_contains_push<A>(s: Seq<A>, v: A)
    ensures
        forall|q: A| s.push(v).contains(q) <==> s.contains(q) || q == v,
{
    assert forall|q: A| s.push(v).contains(q) implies s.contains(q) || q == v by {
        let i = choose|i: int| 0 <= i < s.push(v).len() && s.push(v)[i] == q;
        if i < s.len() {
            assert(s[i] == q);
        }
    }
    assert forall|q: A| s.contains(q) || q == v implies s.push(v).contains(q) by {
        if s.contains(q) {
            let i = choose|i: int| 0 <= i < s.len() && s[i] == q;
            assert(s.push(v)[i] == q);
        } else {
            assert(s.push(v)[s.len() as int] == v);
        }
    }
}

proof fn lemma_contains_drop_last<A>(s: Seq<A>)
    requires
        s.len() > 0,
    ensures
        forall|q: A| s.drop_last().contains(q) ==> s.contains(q),
        forall|q: A| s.contains(q) && q != s.last() ==> s.drop_last().contains(q),
{
    assert forall|q: A| s.drop_last().contains(q) implies s.contains(q) by {
        let i = choose|i: int| 0 <= i < s.drop_last().len() && s.drop_last()[i] == q;
        assert(s[i] == q);
    }
    assert forall|q: A| s.contains(q) && q != s.last() implies s.drop_last().contains(q) by {
        let i = choose|i: int| 0 <= i < s.len() && s[i] == q;
        assert(i < s.len() - 1);
        assert(s.drop_last()[i] == q);
    }
}

/// Every object's point set is covered by the union.
proof fn lemma_pts_union_contains(objs: Seq<VisualObject>, i: int)
    requires
        0 <= i < objs.len(),
    ensures
        objs[i].points@.to_set().subset_of(pts_union(objs)),
    decreases objs.len(),
{
    if i == objs.len() - 1 {
        assert(objs.last() == objs[i]);
    } else {
        lemma_pts_union_contains(objs.drop_last(), i);
        assert(objs.drop_last()[i] == objs[i]);
    }
}

proof fn lemma_pts_union_push(objs: Seq<VisualObject>, o: VisualObject)
    ensures
        pts_union(objs.push(o)) == pts_union(objs).union(o.points@.to_set()),
{
    assert(objs.push(o).drop_last() =~= objs);
    assert(objs.push(o).last() == o);
}

/// Pushes the cell (x, y) onto the work stack when it lies inside a grid of
/// `w` by `h` cells, and leaves the stack unchanged otherwise.
fn push_neighbor(stack: &mut Vec<Point>, x: i64, y: i64, w: usize, h: usize) -> (pushed: bool)
    requires
        w <= u32::MAX,
        h <= u32::MAX,
    ensures
        pushed == (0 <= x < w && 0 <= y < h),
        pushed ==> final(stack)@ == old(stack)@.push((Point { x: x as u32, y: y as u32 })),
        !pushed ==> final(stack)@ == old(stack)@,
        forall|q: Point| old(stack)@.contains(q) ==> final(stack)@.contains(q),
        forall|q: Point|
            final(stack)@.contains(q) ==> old(stack)@.contains(q) || ((q.x as int) == x && (
            q.y as int) == y),
        pushed ==> final(stack)@.contains((Point { x: x as u32, y: y as u32 })),
{
    if 0 <= x && x < w as i64 && 0 <= y && y < h as i64 {
        let np = Point { x: x as u32, y: y as u32 };
        stack.push(np);
        proof {
            lemma_contains_push(old(stack)@, np);
            assert(stack@[stack@.len() - 1] == np);
            assert(stack@.contains(np));
        }
        true
    } else {
        false
    }
}

/// Collects one whole connected component: starting from an on seed cell, it
/// clears every on cell reachable through 8-connected on cells, appending
/// each cleared cell to the object. An explicit work stack bounds the memory
/// instead of recursion depth. Afterwards the appended points are exactly the
/// cells that were cleared, the seed is among them, and no remaining on cell
/// touches any of them.
#[verifier::loop_isolation(false)]
#[verifier::rlimit(100)]
#[verifier::spinoff_prover]
pub fn flood_fill(point: Point, object: &mut VisualObject, image: &mut Grid<bool>)
    requires
        old(image).wf(),
        old(object).wf(),
        old(image).width <= u32::MAX,
        old(image).height <= u32::MAX,
        (point.x as int) < old(image).width,
        (point.y as int) < old(image).height,
        old(image).at(point.x as int, point.y as int) == true,
    ensures
        final(image).wf(),
        final(image).same_dims(*old(image)),
        final(object).wf(),
        final(object).reference == old(object).reference,
        final(object).points@.subrange(0, old(object).points@.len() as int) == old(
            object,
        ).points@,
        on_set(*final(image)).subset_of(on_set(*old(image))),
        gained(old(object).points@, final(object).points@).to_set() == on_set(
            *old(image),
        ).difference(on_set(*final(image))),
        gained(old(object).points@, final(object).points@).contains(point),
        forall|p: Point, q: Point|
            gained(old(object).points@, final(object).points@).to_set().contains(p)
                && is_neighbor(p, q) ==> !on_set(*final(image)).contains(q),
        forall|p: Point|
            #[trigger] gained(old(object).points@, final(object).points@).to_set().contains(p)
                ==> connected_in(
                gained(old(object).points@, final(object).points@).to_set(),
                point,
                p,
            ),
{
    let ghost img0 = *image;
    let ghost base = object.points@;
    let w = image.width;
    let h = image.height;
    let mut stack: Vec<Point> = Vec::new();
    stack.push(point);
    proof {
        assert(stack@[0] == point);
        assert(stack@.contains(point));
        assert forall|q: Point| #[trigger] stack@.contains(q) implies q == point by {
            let i = choose|i: int| 0 <= i < stack@.len() && stack@[i] == q;
            assert(stack@[i] == stack@[0]);
        }
        assert(on_set(img0).contains(point));
        assert(object.points@.subrange(0, base.len() as int) =~= base);
        assert(gained(base, object.points@) =~= Seq::<Point>::empty());
        assert(gained(base, object.points@).to_set() =~= on_set(img0).difference(
            on_set(*image),
        ));
    }
    while stack.len() > 0
        invariant
            image.wf(),
            image.width == w,
            image.height == h,
            object.wf(),
            object.reference == old(object).reference,
            object.points@.len() >= base.len(),
            object.points@.subrange(0, base.len() as int) == base,
            on_set(*image).subset_of(on_set(img0)),
            gained(base, object.points@).to_set() == on_set(img0).difference(on_set(*image)),
            gained(base, object.points@).contains(point) || (on_set(*image).contains(point)
                && stack@.contains(point)),
            forall|k: int|
                0 <= k < stack@.len() ==> ((#[trigger] stack@[k]).x as int) < w && (
                stack@[k].y as int) < h,
            forall|p: Point, q: Point|
                gained(base, object.points@).to_set().contains(p) && is_neighbor(p, q)
                    ==> !on_set(*image).contains(q) || stack@.contains(q),
            forall|q: Point|
                #[trigger] stack@.contains(q) ==> q == point || (exists|c: Point|
                    gained(base, object.points@).to_set().contains(c) && is_neighbor(c, q)),
            forall|p: Point|
                #[trigger] gained(base, object.points@).to_set().contains(p) ==> connected_in(
                    gained(base, object.points@).to_set(),
                    point,
                    p,
                ),
        decreases count_on(image.cells@), stack@.len(),
    {
        let ghost stack_pre = stack@;
        let p = stack.pop().unwrap();
        proof {
            assert(stack_pre.last() == p);
            assert(stack@ =~= stack_pre.drop_last());
            lemma_contains_drop_last(stack_pre);
        }
        let on = image.get(p.x as usize, p.y as usize);
        if on {
            let ghost img_pre = *image;
            let ghost pts_pre = object.points@;
            image.set(p.x as usize, p.y as usize, false);
            object.push(p);
            proof {
                lemma_flat_index_bound(w as int, h as int, p.x as int, p.y as int);
                lemma_count_on_clear(
                    img_pre.cells@,
                    crate::grid::flat_index(w as int, p.x as int, p.y as int),
                );
                assert(on_set(img_pre).contains(p));
                assert forall|q: Point| #![auto] on_set(*image).contains(q) <==> on_set(
                    img_pre,
                ).contains(q) && q != p by {
                    if (q.x as int) < w && (q.y as int) < h {
                        lemma_flat_index_bound(w as int, h as int, q.x as int, q.y as int);
                        lemma_flat_index_bound(w as int, h as int, p.x as int, p.y as int);
                        if q != p {
                            lemma_flat_index_injective(
                                w as int,
                                q.x as int,
                                q.y as int,
                                p.x as int,
                                p.y as int,
                            );
                        }
                    }
                }
                assert(on_set(*image) =~= on_set(img_pre).remove(p));
                lemma_contains_push(gained(base, pts_pre), p);
                lemma_to_set_push(gained(base, pts_pre), p);
                assert(gained(base, object.points@) =~= gained(base, pts_pre).push(p));
                assert(gained(base, object.points@).to_set() == gained(
                    base,
                    pts_pre,
                ).to_set().insert(p));
                assert(gained(base, object.points@).to_set() =~= on_set(img0).difference(
                    on_set(*image),
                ));
                assert(object.points@.subrange(0, base.len() as int) =~= base);
                let added_old = gained(base, pts_pre).to_set();
                let added_new = gained(base, object.points@).to_set();
                assert(stack_pre[stack_pre.len() - 1] == p);
                assert(stack_pre.contains(p));
                assert forall|q: Point| #[trigger] added_new.contains(q) implies connected_in(
                    added_new,
                    point,
                    q,
                ) by {
                    if q == p {
                        if p == point {
                            lemma_connected_refl(added_new, point);
                        } else {
                            let c = choose|c: Point|
                                added_old.contains(c) && is_neighbor(c, p);
                            lemma_connected_monotone(added_old, added_new, point, c);
                            lemma_connected_extend(added_new, point, c, p);
                        }
                    } else {
                        assert(added_old.contains(q));
                        lemma_connected_monotone(added_old, added_new, point, q);
                    }
                }
                assert forall|q: Point| #[trigger] stack@.contains(q) implies q == point || (
                exists|c: Point| added_new.contains(c) && is_neighbor(c, q)) by {
                    assert(stack_pre.contains(q));
                    if q != point {
                        let c = choose|c: Point| added_old.contains(c) && is_neighbor(c, q);
                        assert(added_new.contains(c) && is_neighbor(c, q));
                    }
                }
            }
            let ghost stack_mid = stack@;
            push_neighbor(&mut stack, p.x as i64 - 1, p.y as i64 - 1, w, h);
            push_neighbor(&mut stack, p.x as i64, p.y as i64 - 1, w, h);
            push_neighbor(&mut stack, p.x as i64 + 1, p.y as i64 - 1, w, h);
            push_neighbor(&mut stack, p.x as i64 - 1, p.y as i64, w, h);
            push_neighbor(&mut stack, p.x as i64 + 1, p.y as i64, w, h);
            push_neighbor(&mut stack, p.x as i64 - 1, p.y as i64 + 1, w, h);
            push_neighbor(&mut stack, p.x as i64, p.y as i64 + 1, w, h);
            push_neighbor(&mut stack, p.x as i64 + 1, p.y as i64 + 1, w, h);
            proof {
                assert(gained(base, object.points@).contains(point) || (on_set(*image).contains(
                    point,
                ) && stack@.contains(point))) by {
                    let g2 = gained(base, object.points@);
                    assert(g2 == gained(base, pts_pre).push(p));
                    if p == point {
                        assert(g2[g2.len() - 1] == p);
                        assert(g2.contains(point));
                    } else if gained(base, pts_pre).contains(point) {
                        let i = choose|i: int|
                            0 <= i < gained(base, pts_pre).len() && gained(base, pts_pre)[i]
                                == point;
                        assert(g2[i] == point);
                        assert(g2.contains(point));
                    } else {
                        assert(stack_pre.drop_last().contains(point));
                        assert(on_set(img_pre).contains(point));
                    }
                }
                assert forall|q: Point| is_neighbor(p, q) implies !on_set(*image).contains(q)
                    || stack@.contains(q) by {
                    if on_set(*image).contains(q) {
                        assert((q.x as int) < w && (q.y as int) < h);
                        assert(q != p);
                    }
                }
                assert forall|p0: Point, q: Point|
                    gained(base, object.points@).to_set().contains(p0) && is_neighbor(
                        p0,
                        q,
                    ) implies !on_set(*image).contains(q) || stack@.contains(q) by {
                    if p0 != p {
                        assert(gained(base, pts_pre).contains(p0));
                        if on_set(img_pre).contains(q) && stack_pre.contains(q) {
                            if q != p {
                                assert(stack_pre.drop_last().contains(q));
                            }
                        }
                    }
                }
                let added_new = gained(base, object.points@).to_set();
                assert(added_new.contains(p));
                assert forall|q: Point| #[trigger] stack@.contains(q) implies q == point || (
                exists|c: Point| added_new.contains(c) && is_neighbor(c, q)) by {
                    if !stack_mid.contains(q) {
                        assert(is_neighbor(p, q));
                        assert(added_new.contains(p) && is_neighbor(p, q));
                    }
                }
            }
        } else {
            proof {
                assert(!on_set(*image).contains(p));
                if on_set(*image).contains(point) && stack_pre.contains(point) {
                    assert(point != p);
                    assert(stack_pre.drop_last().contains(point));
                }
                assert forall|p0: Point, q: Point|
                    gained(base, object.points@).to_set().contains(p0) && is_neighbor(
                        p0,
                        q,
                    ) implies !on_set(*image).contains(q) || stack@.contains(q) by {
                    if on_set(*image).contains(q) && stack_pre.contains(q) {
                        if q != p {
                            assert(stack_pre.drop_last().contains(q));
                        }
                    }
                }
                assert forall|q: Point| #[trigger] stack@.contains(q) implies q == point || (
                exists|c: Point|
                    gained(base, object.points@).to_set().contains(c) && is_neighbor(
                        c,
                        q,
                    )) by {
                    assert(stack_pre.contains(q));
                }
            }
        }
    }
    proof {
        assert(forall|q: Point| !stack@.contains(q));
    }
}

/// Scans the grid row-major and flood-fills every on cell it meets into a
/// fresh object anchored at `reference`. On return the objects' point sets
/// partition the cells that were on — every on cell in exactly one object —
/// each object is a single 8-connected region, and no two objects touch: the
/// objects are exactly the connected components of the on cells.
#[verifier::loop_isolation(false)]
pub fn find_highlights_in_map(image: Grid<bool>, reference: Point) -> (objects: Vec<VisualObject>)
    requires
        image.wf(),
        image.width <= u32::MAX,
        image.height <= u32::MAX,
    ensures
        pts_union(objects@) == on_set(image),
        pairwise_disjoint(objects@),
        pairwise_separated(objects@),
        forall|i: int|
            0 <= i < objects@.len() ==> (#[trigger] objects@[i]).reference == reference
                && objects@[i].wf() && objects@[i].points@.len() > 0 && all_connected(
                objects@[i].points@,
            ),
{
    let w = image.width;
    let h = image.height;
    let ghost source = image;
    let mut img = image;
    let mut objects: Vec<VisualObject> = Vec::new();
    proof {
        assert(pts_union(objects@) =~= on_set(source).difference(on_set(img)));
    }
    let mut y: usize = 0;
    while y < h
        invariant
            img.wf(),
            img.width == w,
            img.height == h,
            y <= h,
            forall|q: Point| #[trigger] on_set(img).contains(q) ==> (q.y as int) >= y,
            on_set(img).subset_of(on_set(source)),
            pts_union(objects@) == on_set(source).difference(on_set(img)),
            pairwise_disjoint(objects@),
            pairwise_separated(objects@),
            isolated_from(objects@, img),
            forall|i: int|
                0 <= i < objects@.len() ==> (#[trigger] objects@[i]).reference == reference
                    && objects@[i].wf() && objects@[i].points@.len() > 0 && all_connected(
                    objects@[i].points@,
                ),
        decreases h - y,
    {
        let mut x: usize = 0;
        while x < w
            invariant
                img.wf(),
                img.width == w,
                img.height == h,
                y < h,
                x <= w,
                forall|q: Point|
                    #[trigger] on_set(img).contains(q) ==> (q.y as int) > y || ((q.y as int) == y
                        && (q.x as int) >= x),
                on_set(img).subset_of(on_set(source)),
                pts_union(objects@) == on_set(source).difference(on_set(img)),
                pairwise_disjoint(objects@),
                pairwise_separated(objects@),
                isolated_from(objects@, img),
                forall|i: int|
                    0 <= i < objects@.len() ==> (#[trigger] objects@[i]).reference == reference
                        && objects@[i].wf() && objects@[i].points@.len() > 0 && all_connected(
                        objects@[i].points@,
                    ),
            decreases w - x,
        {
            if img.get(x, y) {
                let seed = Point { x: x as u32, y: y as u32 };
                let ghost img_pre = img;
                let mut obj = VisualObject::new(reference);
                flood_fill(seed, &mut obj, &mut img);
                proof {
                    assert(gained(Seq::<Point>::empty(), obj.points@) =~= obj.points@);
                    assert(obj.points@.to_set() =~= on_set(img_pre).difference(on_set(img)));
                    assert(obj.points@.contains(seed));
                    assert(obj.points@.to_set().contains(seed));
                    assert(!on_set(img).contains(seed));
                    assert forall|p: Point| #[trigger] obj.points@.to_set().contains(p) implies
                        connected_in(obj.points@.to_set(), seed, p) by {
                        assert(gained(Seq::<Point>::empty(), obj.points@).to_set().contains(p));
                    }
                    lemma_seed_connectivity_pairwise(obj.points@.to_set(), seed);
                    assert(all_connected(obj.points@)) by {
                        assert forall|p: Point, q: Point|
                            #[trigger] obj.points@.contains(p) && #[trigger] obj.points@.contains(
                                q,
                            ) implies connected_in(obj.points@.to_set(), p, q) by {
                            assert(obj.points@.to_set().contains(p));
                            assert(obj.points@.to_set().contains(q));
                        }
                    }
                    lemma_pts_union_push(objects@, obj);
                    assert(pts_union(objects@.push(obj)) =~= on_set(source).difference(
                        on_set(img),
                    ));
                    let objs2 = objects@.push(obj);
                    assert forall|i: int, j: int|
                        0 <= i < objs2.len() && 0 <= j < objs2.len() && i != j implies (
                    #[trigger] objs2[i]).points@.to_set().disjoint(
                        (#[trigger] objs2[j]).points@.to_set(),
                    ) by {
                        if i < objects@.len() && j < objects@.len() {
                            assert(objects@[i] == objs2[i] && objects@[j] == objs2[j]);
                        } else {
                            let oi = if i < objects@.len() {
                                i
                            } else {
                                j
                            };
                            assert(objs2[oi] == objects@[oi]);
                            lemma_pts_union_contains(objects@, oi);
                            assert forall|e: Point|
                                objects@[oi].points@.to_set().contains(e) implies !obj.points@.to_set().contains(e) by {
                                assert(pts_union(objects@).contains(e));
                                assert(!on_set(img_pre).contains(e));
                            }
                        }
                    }
                    assert forall|i: int, j: int|
                        0 <= i < objs2.len() && 0 <= j < objs2.len() && i != j implies separated(
                        (#[trigger] objs2[i]).points@,
                        (#[trigger] objs2[j]).points@,
                    ) by {
                        if i < objects@.len() && j < objects@.len() {
                            assert(objects@[i] == objs2[i] && objects@[j] == objs2[j]);
                            assert(separated(objects@[i].points@, objects@[j].points@));
                        } else {
                            let oi = if i < objects@.len() {
                                i
                            } else {
                                j
                            };
                            assert(objs2[oi] == objects@[oi]);
                            assert forall|p0: Point, q0: Point|
                                #[trigger] objects@[oi].points@.contains(p0)
                                    && #[trigger] obj.points@.contains(q0) implies !is_neighbor(
                                p0,
                                q0,
                            ) && !is_neighbor(q0, p0) by {
                                if is_neighbor(p0, q0) {
                                    assert(obj.points@.to_set().contains(q0));
                                    assert(on_set(img_pre).contains(q0));
                                    assert(!on_set(img_pre).contains(q0));
                                }
                                if is_neighbor(q0, p0) {
                                    assert(is_neighbor(p0, q0));
                                }
                            }
                        }
                    }
                    assert forall|i: int, p0: Point, q0: Point|
                        #![trigger objs2[i].points@.contains(p0), on_set(img).contains(q0)]
                        0 <= i < objs2.len() && objs2[i].points@.contains(p0) && is_neighbor(
                            p0,
                            q0,
                        ) implies !on_set(img).contains(q0) by {
                        if i < objects@.len() {
                            assert(objs2[i] == objects@[i]);
                            assert(!on_set(img_pre).contains(q0) || on_set(img_pre).contains(
                                q0,
                            ));
                        } else {
                            assert(objs2[i] == obj);
                            assert(obj.points@.to_set().contains(p0));
                        }
                    }
                }
                objects.push(obj);
            } else {
                proof {
                    let q0 = Point { x: x as u32, y: y as u32 };
                    assert(q0.x as int == x as int);
                    assert(q0.y as int == y as int);
                    assert(!on_set(img).contains(q0));
                }
            }
            proof {
                assert forall|q: Point| #[trigger] on_set(img).contains(q) implies (q.y as int) > y
                    || ((q.y as int) == y && (q.x as int) >= x + 1) by {
                    if (q.y as int) == y && (q.x as int) == x {
                        assert(q == (Point { x: x as u32, y: y as u32 }));
                    }
                }
            }
            x = x + 1;
        }
        y = y + 1;
    }
    proof {
        assert forall|q: Point| !on_set(img).contains(q) by {
            if on_set(img).contains(q) {
                assert((q.y as int) < h);
            }
        }
        assert(on_set(img) =~= Set::<Point>::empty());
        assert(pts_union(objects@) =~= on_set(source));
    }
    objects
}

/// Finds every highlighted region in the point grid and appends them, as
/// [`VisualObject`]s anchored at `reference`, to `objects`. The appended
/// objects' point sets partition the grid's on cells, one connected component
/// per object.
pub fn extract_highlights(image: Grid<bool>, reference: Point, objects: &mut Vec<VisualObject>)
    requires
        image.wf(),
        image.width <= u32::MAX,
        image.height <= u32::MAX,
    ensures
        final(objects)@.len() >= old(objects)@.len(),
        final(objects)@.subrange(0, old(objects)@.len() as int) == old(objects)@,
        pts_union(final(objects)@.skip(old(objects)@.len() as int)) == on_set(image),
        pairwise_disjoint(final(objects)@.skip(old(objects)@.len() as int)),
        pairwise_separated(final(objects)@.skip(old(objects)@.len() as int)),
        forall|i: int|
            old(objects)@.len() <= i < final(objects)@.len() ==> (
            #[trigger] final(objects)@[i]).reference == reference && final(objects)@[i].wf()
                && final(objects)@[i].points@.len() > 0 && all_connected(
                final(objects)@[i].points@,
            ),
{
    let mut found = find_highlights_in_map(image, reference);
    let ghost found_view = found@;
    objects.append(&mut found);
    proof {
        assert(objects@.subrange(0, old(objects)@.len() as int) =~= old(objects)@);
        assert(objects@.skip(old(objects)@.len() as int) =~= found_view);
    }
}

} // verus!
