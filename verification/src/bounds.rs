//! The box around what a document draws.

use crate::export::Point;
use crate::model::{Shape, VectorImage};
use crate::path::SubPath;
use vstd::prelude::*;

verus! {

/// An upright box. One that holds no point has its edges the wrong way round.
#[derive(Clone, Copy, Debug, PartialEq, Eq, Structural)]
pub struct Rect {
    pub x0: i64,
    pub y0: i64,
    pub x1: i64,
    pub y1: i64,
}

impl Rect {
    pub open spec fn none() -> Rect {
        Rect { x0: i64::MAX, y0: i64::MAX, x1: i64::MIN, y1: i64::MIN }
    }

    /// The smallest box around this one and `p`.
    pub open spec fn around(self, p: Point) -> Rect {
        Rect {
            x0: if p.x < self.x0 { p.x } else { self.x0 },
            y0: if p.y < self.y0 { p.y } else { self.y0 },
            x1: if p.x > self.x1 { p.x } else { self.x1 },
            y1: if p.y > self.y1 { p.y } else { self.y1 },
        }
    }

    pub open spec fn holds(self, p: Point) -> bool {
        self.x0 <= p.x <= self.x1 && self.y0 <= p.y <= self.y1
    }

    /// The box that holds nothing.
    pub fn empty() -> (r: Rect)
        ensures
            r == Rect::none(),
    {
        Rect { x0: i64::MAX, y0: i64::MAX, x1: i64::MIN, y1: i64::MIN }
    }

    /// Grow the box so that it holds `p`.
    pub fn add(&mut self, p: Point)
        ensures
            *final(self) == old(self).around(p),
    {
        if p.x < self.x0 {
            self.x0 = p.x;
        }
        if p.y < self.y0 {
            self.y0 = p.y;
        }
        if p.x > self.x1 {
            self.x1 = p.x;
        }
        if p.y > self.y1 {
            self.y1 = p.y;
        }
    }

    pub fn width(&self) -> (w: u64)
        ensures
            w == if self.x1 > self.x0 { self.x1 - self.x0 } else { 0 },
    {
        span(self.x0, self.x1)
    }

    pub fn height(&self) -> (h: u64)
        ensures
            h == if self.y1 > self.y0 { self.y1 - self.y0 } else { 0 },
    {
        span(self.y0, self.y1)
    }
}

fn span(lo: i64, hi: i64) -> (w: u64)
    ensures
        w == if hi > lo { hi - lo } else { 0 },
{
    if hi > lo {
        (hi as i128 - lo as i128) as u64
    } else {
        0
    }
}

/// The box around `base` and the points of `s`.
pub open spec fn box_around(base: Rect, s: Seq<Point>) -> Rect
    decreases s.len(),
{
    if s.len() == 0 {
        base
    } else {
        box_around(base, s.drop_last()).around(s.last())
    }
}

/// The subpaths of the first `n` shapes, one after the other.
pub open spec fn all_paths<P, S>(shapes: Seq<Shape<P, S>>, n: int) -> Seq<SubPath<P, S>>
    decreases n,
{
    if n <= 0 {
        seq![]
    } else {
        all_paths(shapes, n - 1) + shapes[n - 1].subpaths@
    }
}

/// `flat` are outlines of `paths`, each as `flatten` gives it.
pub open spec fn are_flat<P, S, F: Fn(&SubPath<P, S>) -> Vec<Point>>(
    flatten: F,
    paths: Seq<SubPath<P, S>>,
    flat: Seq<Vec<Point>>,
) -> bool {
    &&& flat.len() == paths.len()
    &&& forall|i: int|
        0 <= i < flat.len() ==> flatten.ensures((&paths[i],), #[trigger] flat[i])
}

/// The points of all outlines.
pub open spec fn points_of(flat: Seq<Vec<Point>>) -> Seq<Point>
    decreases flat.len(),
{
    if flat.len() == 0 {
        seq![]
    } else {
        points_of(flat.drop_last()) + flat.last()@
    }
}

proof fn lemma_box_grows(base: Rect, a: Seq<Point>, b: Seq<Point>)
    ensures
        box_around(base, a + b) == box_around(box_around(base, a), b),
    decreases b.len(),
{
    if b.len() == 0 {
        assert(a + b =~= a);
    } else {
        assert((a + b).drop_last() =~= a + b.drop_last());
        lemma_box_grows(base, a, b.drop_last());
    }
}

fn add_points(r: &mut Rect, pts: &Vec<Point>)
    ensures
        *final(r) == box_around(*old(r), pts@),
{
    let ghost base = *r;
    let mut i: usize = 0;
    while i < pts.len()
        invariant
            i <= pts@.len(),
            *r == box_around(base, pts@.take(i as int)),
        decreases pts@.len() - i,
    {
        r.add(pts[i]);
        assert(pts@.take(i + 1).drop_last() =~= pts@.take(i as int));
        i = i + 1;
    }
    assert(pts@.take(i as int) =~= pts@);
}

impl<P, S> VectorImage<P, S> {
    /// The box around every outline, each flattened by `flatten`.
    pub fn bounds<F: Fn(&SubPath<P, S>) -> Vec<Point>>(&self, flatten: &F) -> (r: Rect)
        requires
            forall|p: &SubPath<P, S>| #[trigger] flatten.requires((p,)),
        ensures
            exists|flat: Seq<Vec<Point>>|
                #[trigger] are_flat(
                    *flatten,
                    all_paths(self.shapes@, self.shapes@.len() as int),
                    flat,
                ) && r == box_around(Rect::none(), points_of(flat)),
    {
        let mut r = Rect::empty();
        let ghost mut flat: Seq<Vec<Point>> = seq![];
        let mut k: usize = 0;
        while k < self.shapes.len()
            invariant
                forall|p: &SubPath<P, S>| #[trigger] flatten.requires((p,)),
                k <= self.shapes@.len(),
                are_flat(*flatten, all_paths(self.shapes@, k as int), flat),
                r == box_around(Rect::none(), points_of(flat)),
            decreases self.shapes@.len() - k,
        {
            let paths: &Vec<SubPath<P, S>> = &self.shapes[k].subpaths;
            let ghost before = all_paths(self.shapes@, k as int);
            assert(before + paths@.take(0) =~= before);
            let mut j: usize = 0;
            while j < paths.len()
                invariant
                    forall|p: &SubPath<P, S>| #[trigger] flatten.requires((p,)),
                    j <= paths@.len(),
                    are_flat(*flatten, before + paths@.take(j as int), flat),
                    r == box_around(Rect::none(), points_of(flat)),
                decreases paths@.len() - j,
            {
                let pts: Vec<Point> = flatten(&paths[j]);
                proof {
                    let more = flat.push(pts);
                    let seen = before + paths@.take(j as int);
                    assert(before + paths@.take(j + 1) =~= seen.push(paths@[j as int]));
                    assert forall|i: int| 0 <= i < more.len() implies flatten.ensures(
                        (&seen.push(paths@[j as int])[i],),
                        #[trigger] more[i],
                    ) by {
                        if i < flat.len() {
                            assert(more[i] == flat[i]);
                        }
                    }
                    assert(more.drop_last() =~= flat);
                    lemma_box_grows(Rect::none(), points_of(flat), pts@);
                    flat = more;
                }
                add_points(&mut r, &pts);
                j = j + 1;
            }
            assert(paths@.take(j as int) =~= paths@);
            k = k + 1;
        }
        r
    }
}

/// The box around some points holds each of them, and is no larger than it must
/// be: every edge of it runs through one of them.
pub proof fn law_box_is_tight(s: Seq<Point>)
    ensures
        forall|i: int| 0 <= i < s.len() ==> box_around(Rect::none(), s).holds(#[trigger] s[i]),
        s.len() > 0 ==> {
            let b = box_around(Rect::none(), s);
            &&& exists|i: int| 0 <= i < s.len() && (#[trigger] s[i]).x == b.x0
            &&& exists|i: int| 0 <= i < s.len() && (#[trigger] s[i]).x == b.x1
            &&& exists|i: int| 0 <= i < s.len() && (#[trigger] s[i]).y == b.y0
            &&& exists|i: int| 0 <= i < s.len() && (#[trigger] s[i]).y == b.y1
        },
    decreases s.len(),
{
    if s.len() > 0 {
        let t = s.drop_last();
        let b = box_around(Rect::none(), s);
        let c = box_around(Rect::none(), t);
        let last = s.len() - 1;
        law_box_is_tight(t);
        assert forall|i: int| 0 <= i < s.len() implies b.holds(#[trigger] s[i]) by {
            if i < last {
                assert(t[i] == s[i]);
            }
        }
        assert(s[last] == s.last());
        if t.len() > 0 {
            let i0 = choose|i: int| 0 <= i < t.len() && (#[trigger] t[i]).x == c.x0;
            let i1 = choose|i: int| 0 <= i < t.len() && (#[trigger] t[i]).x == c.x1;
            let j0 = choose|i: int| 0 <= i < t.len() && (#[trigger] t[i]).y == c.y0;
            let j1 = choose|i: int| 0 <= i < t.len() && (#[trigger] t[i]).y == c.y1;
            assert(s[i0] == t[i0] && s[i1] == t[i1] && s[j0] == t[j0] && s[j1] == t[j1]);
        } else {
            assert(c == Rect::none());
        }
    }
}

} // verus!
