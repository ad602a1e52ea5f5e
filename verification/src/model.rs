//! The vector document produced by tracing, and the complexity metrics used to
//! judge it.

use crate::color::Rgba8;
use crate::path::{PathView, Seg, SubPath};
use vstd::prelude::*;

verus! {

/// One filled shape. Its subpaths are the outer boundary plus any holes, and
/// they never overlap another shape's interior: the whole document is a planar
/// subdivision.
pub struct Shape<P, S> {
    pub color: Rgba8,
    pub subpaths: Vec<SubPath<P, S>>,
}

/// What a [`Shape`] draws.
pub ghost struct ShapeView<P, S> {
    pub color: Rgba8,
    pub subpaths: Seq<PathView<P, S>>,
}

pub open spec fn paths_of<P, S>(v: Seq<SubPath<P, S>>) -> Seq<PathView<P, S>> {
    Seq::new(v.len(), |i: int| v[i]@)
}

pub open spec fn shapes_of<P, S>(v: Seq<Shape<P, S>>) -> Seq<ShapeView<P, S>> {
    Seq::new(v.len(), |i: int| v[i]@)
}

impl<P, S> View for Shape<P, S> {
    type V = ShapeView<P, S>;

    open spec fn view(&self) -> ShapeView<P, S> {
        ShapeView { color: self.color, subpaths: paths_of(self.subpaths@) }
    }
}

/// The document.
pub struct VectorImage<P, S> {
    pub width: S,
    pub height: S,
    pub shapes: Vec<Shape<P, S>>,
    /// Optional backdrop painted behind everything.
    pub background: Option<Rgba8>,
}

/// How much geometry the result costs. Fewer points at equal fidelity is the
/// whole game, so these are first-class outputs, not diagnostics.
#[derive(Clone, Copy, Debug, PartialEq, Eq, Structural)]
pub struct Complexity {
    pub shapes: usize,
    pub subpaths: usize,
    pub segments: usize,
    /// On-curve points.
    pub anchors: usize,
    /// Off-curve control handles.
    pub handles: usize,
    pub lines: usize,
    pub cubics: usize,
    pub arcs: usize,
}

impl Complexity {
    /// The headline number: every point an editor would show you.
    pub fn total_points(&self) -> (n: usize)
        requires
            self.anchors + self.handles <= usize::MAX,
        ensures
            n == self.anchors + self.handles,
    {
        self.anchors + self.handles
    }
}

/// Geometry counts without bounds.
pub ghost struct Cost {
    pub subpaths: nat,
    pub segments: nat,
    pub anchors: nat,
    pub handles: nat,
    pub lines: nat,
    pub cubics: nat,
    pub arcs: nat,
}

impl Cost {
    pub open spec fn nothing() -> Cost {
        Cost { subpaths: 0, segments: 0, anchors: 0, handles: 0, lines: 0, cubics: 0, arcs: 0 }
    }

    pub open spec fn plus(self, o: Cost) -> Cost {
        Cost {
            subpaths: self.subpaths + o.subpaths,
            segments: self.segments + o.segments,
            anchors: self.anchors + o.anchors,
            handles: self.handles + o.handles,
            lines: self.lines + o.lines,
            cubics: self.cubics + o.cubics,
            arcs: self.arcs + o.arcs,
        }
    }

    pub open spec fn at_most(self, o: Cost) -> bool {
        &&& self.subpaths <= o.subpaths
        &&& self.segments <= o.segments
        &&& self.anchors <= o.anchors
        &&& self.handles <= o.handles
        &&& self.lines <= o.lines
        &&& self.cubics <= o.cubics
        &&& self.arcs <= o.arcs
    }

    /// Every count can be held by the machine.
    pub open spec fn fits(self) -> bool {
        &&& self.subpaths <= usize::MAX
        &&& self.segments <= usize::MAX
        &&& self.anchors <= usize::MAX
        &&& self.handles <= usize::MAX
        &&& self.lines <= usize::MAX
        &&& self.cubics <= usize::MAX
        &&& self.arcs <= usize::MAX
    }
}

/// What one command costs. Anchors are counted per subpath.
pub open spec fn seg_cost<P, S>(s: Seg<P, S>) -> Cost {
    let one = Cost { segments: 1, ..Cost::nothing() };
    match s {
        Seg::Line { to } => Cost { lines: 1, ..one },
        Seg::Cubic { c1, c2, to } => Cost { cubics: 1, handles: 2, ..one },
        Seg::Arc { r, large, sweep, to } => Cost { arcs: 1, handles: 2, ..one },
    }
}

pub open spec fn segs_cost<P, S>(segs: Seq<Seg<P, S>>) -> Cost
    decreases segs.len(),
{
    if segs.len() == 0 {
        Cost::nothing()
    } else {
        segs_cost(segs.drop_last()).plus(seg_cost(segs.last()))
    }
}

pub open spec fn path_cost<P, S>(p: PathView<P, S>) -> Cost {
    segs_cost(p.segs).plus(Cost { subpaths: 1, anchors: p.anchors(), ..Cost::nothing() })
}

pub open spec fn paths_cost<P, S>(paths: Seq<PathView<P, S>>) -> Cost
    decreases paths.len(),
{
    if paths.len() == 0 {
        Cost::nothing()
    } else {
        paths_cost(paths.drop_last()).plus(path_cost(paths.last()))
    }
}

pub open spec fn shapes_cost<P, S>(shapes: Seq<ShapeView<P, S>>) -> Cost
    decreases shapes.len(),
{
    if shapes.len() == 0 {
        Cost::nothing()
    } else {
        shapes_cost(shapes.drop_last()).plus(paths_cost(shapes.last().subpaths))
    }
}

proof fn lemma_segs_cost_take<P, S>(segs: Seq<Seg<P, S>>, k: int)
    requires
        0 <= k <= segs.len(),
    ensures
        segs_cost(segs.take(k)).at_most(segs_cost(segs)),
    decreases segs.len(),
{
    if k == segs.len() {
        assert(segs.take(k) =~= segs);
    } else {
        assert(segs.drop_last().take(k) =~= segs.take(k));
        lemma_segs_cost_take(segs.drop_last(), k);
    }
}

proof fn lemma_paths_cost_take<P, S>(paths: Seq<PathView<P, S>>, k: int)
    requires
        0 <= k <= paths.len(),
    ensures
        paths_cost(paths.take(k)).at_most(paths_cost(paths)),
    decreases paths.len(),
{
    if k == paths.len() {
        assert(paths.take(k) =~= paths);
    } else {
        assert(paths.drop_last().take(k) =~= paths.take(k));
        lemma_paths_cost_take(paths.drop_last(), k);
    }
}

proof fn lemma_shapes_cost_take<P, S>(shapes: Seq<ShapeView<P, S>>, k: int)
    requires
        0 <= k <= shapes.len(),
    ensures
        shapes_cost(shapes.take(k)).at_most(shapes_cost(shapes)),
    decreases shapes.len(),
{
    if k == shapes.len() {
        assert(shapes.take(k) =~= shapes);
    } else {
        assert(shapes.drop_last().take(k) =~= shapes.take(k));
        lemma_shapes_cost_take(shapes.drop_last(), k);
    }
}

pub proof fn lemma_paths_cost_add<P, S>(a: Seq<PathView<P, S>>, b: Seq<PathView<P, S>>)
    ensures
        paths_cost(a + b) == paths_cost(a).plus(paths_cost(b)),
    decreases b.len(),
{
    if b.len() == 0 {
        assert(a + b =~= a);
    } else {
        assert((a + b).drop_last() =~= a + b.drop_last());
        lemma_paths_cost_add(a, b.drop_last());
    }
}

/// Add the cost of `segs` to a running count.
fn count_segs<P: Copy, S: Copy>(
    c: &mut Complexity,
    segs: &Vec<Seg<P, S>>,
    Ghost(base): Ghost<Cost>,
)
    requires
        counts(*old(c), base),
        base.plus(segs_cost(segs@)).fits(),
    ensures
        counts(*final(c), base.plus(segs_cost(segs@))),
        final(c).shapes == old(c).shapes,
{
    let mut k: usize = 0;
    while k < segs.len()
        invariant
            k <= segs@.len(),
            counts(*c, base.plus(segs_cost(segs@.take(k as int)))),
            base.plus(segs_cost(segs@)).fits(),
            c.shapes == old(c).shapes,
        decreases segs@.len() - k,
    {
        proof {
            lemma_segs_cost_take(segs@, k + 1);
            assert(segs@.take(k + 1).drop_last() =~= segs@.take(k as int));
        }
        c.segments = c.segments + 1;
        match segs[k] {
            Seg::Line { .. } => {
                c.lines = c.lines + 1;
            },
            Seg::Cubic { .. } => {
                c.cubics = c.cubics + 1;
                c.handles = c.handles + 2;
            },
            Seg::Arc { .. } => {
                c.arcs = c.arcs + 1;
                c.handles = c.handles + 2;
            },
        }
        k = k + 1;
    }
    assert(segs@.take(k as int) =~= segs@);
}

/// The machine counts are the counts of `cost`.
pub open spec fn counts(c: Complexity, cost: Cost) -> bool {
    &&& c.subpaths == cost.subpaths
    &&& c.segments == cost.segments
    &&& c.anchors == cost.anchors
    &&& c.handles == cost.handles
    &&& c.lines == cost.lines
    &&& c.cubics == cost.cubics
    &&& c.arcs == cost.arcs
}

/// Add the cost of `paths` to a running count.
fn count_paths<P: Copy, S: Copy>(
    c: &mut Complexity,
    paths: &Vec<SubPath<P, S>>,
    Ghost(base): Ghost<Cost>,
)
    requires
        counts(*old(c), base),
        base.plus(paths_cost(paths_of(paths@))).fits(),
    ensures
        counts(*final(c), base.plus(paths_cost(paths_of(paths@)))),
        final(c).shapes == old(c).shapes,
{
    let ghost views = paths_of(paths@);
    let mut k: usize = 0;
    while k < paths.len()
        invariant
            k <= paths@.len(),
            views == paths_of(paths@),
            counts(*c, base.plus(paths_cost(views.take(k as int)))),
            base.plus(paths_cost(views)).fits(),
            c.shapes == old(c).shapes,
        decreases paths@.len() - k,
    {
        let ghost so_far = base.plus(paths_cost(views.take(k as int)));
        let p: &SubPath<P, S> = &paths[k];
        proof {
            lemma_paths_cost_take(views, k + 1);
            assert(views.take(k + 1).drop_last() =~= views.take(k as int));
            assert(views[k as int] == p@);
        }
        count_segs(c, &p.segs, Ghost(so_far));
        c.subpaths = c.subpaths + 1;
        proof {
            lemma_segs_count(p.segs@);
        }
        let n: usize = p.segs.len();
        c.anchors = if p.closed {
            c.anchors + n
        } else {
            c.anchors + 1 + n
        };
        k = k + 1;
    }
    assert(views.take(k as int) =~= views);
}

/// A list of commands has no anchors of its own, and as many segments as
/// commands.
proof fn lemma_segs_count<P, S>(segs: Seq<Seg<P, S>>)
    ensures
        segs_cost(segs).anchors == 0,
        segs_cost(segs).subpaths == 0,
        segs_cost(segs).segments == segs.len(),
    decreases segs.len(),
{
    if segs.len() > 0 {
        lemma_segs_count(segs.drop_last());
    }
}

impl<P: Copy, S: Copy> Shape<P, S> {
    fn count(&self) -> (c: Complexity)
        requires
            paths_cost(self@.subpaths).fits(),
        ensures
            counts(c, paths_cost(self@.subpaths)),
    {
        let mut c = Complexity {
            shapes: 0,
            subpaths: 0,
            segments: 0,
            anchors: 0,
            handles: 0,
            lines: 0,
            cubics: 0,
            arcs: 0,
        };
        count_paths(&mut c, &self.subpaths, Ghost(Cost::nothing()));
        c
    }

    pub fn anchors(&self) -> (n: usize)
        requires
            paths_cost(self@.subpaths).fits(),
        ensures
            n == paths_cost(self@.subpaths).anchors,
    {
        self.count().anchors
    }

    pub fn handles(&self) -> (n: usize)
        requires
            paths_cost(self@.subpaths).fits(),
        ensures
            n == paths_cost(self@.subpaths).handles,
    {
        self.count().handles
    }

    pub fn segments(&self) -> (n: usize)
        requires
            paths_cost(self@.subpaths).fits(),
        ensures
            n == paths_cost(self@.subpaths).segments,
    {
        self.count().segments
    }
}

impl<P: Copy, S: Copy> VectorImage<P, S> {
    pub fn complexity(&self) -> (c: Complexity)
        requires
            shapes_cost(shapes_of(self.shapes@)).fits(),
        ensures
            c.shapes == self.shapes@.len(),
            counts(c, shapes_cost(shapes_of(self.shapes@))),
    {
        let mut c = Complexity {
            shapes: self.shapes.len(),
            subpaths: 0,
            segments: 0,
            anchors: 0,
            handles: 0,
            lines: 0,
            cubics: 0,
            arcs: 0,
        };
        let ghost views = shapes_of(self.shapes@);
        let mut k: usize = 0;
        while k < self.shapes.len()
            invariant
                k <= self.shapes@.len(),
                views == shapes_of(self.shapes@),
                counts(c, shapes_cost(views.take(k as int))),
                shapes_cost(views).fits(),
                c.shapes == self.shapes@.len(),
            decreases self.shapes@.len() - k,
        {
            proof {
                lemma_shapes_cost_take(views, k + 1);
                assert(views.take(k + 1).drop_last() =~= views.take(k as int));
                assert(views[k as int] == self.shapes@[k as int]@);
            }
            count_paths(
                &mut c,
                &self.shapes[k].subpaths,
                Ghost(shapes_cost(views.take(k as int))),
            );
            k = k + 1;
        }
        assert(views.take(k as int) =~= views);
        c
    }
}

// ---- Mapping coordinates ------------------------------------------------

/// `t` is `s` with every position taken through `f` and every length through
/// `g`.
pub open spec fn seg_maps<P, S, Q, T, F: Fn(P) -> Q, G: Fn(S) -> T>(
    f: F,
    g: G,
    s: Seg<P, S>,
    t: Seg<Q, T>,
) -> bool {
    match (s, t) {
        (Seg::Line { to }, Seg::Line { to: to2 }) => f.ensures((to,), to2),
        (Seg::Cubic { c1, c2, to }, Seg::Cubic { c1: d1, c2: d2, to: to2 }) => f.ensures((c1,), d1)
            && f.ensures((c2,), d2) && f.ensures((to,), to2),
        (Seg::Arc { r, large, sweep, to }, Seg::Arc { r: r2, large: large2, sweep: sweep2, to: to2 }) => {
            g.ensures((r,), r2) && large == large2 && sweep == sweep2 && f.ensures((to,), to2)
        },
        _ => false,
    }
}

pub open spec fn path_maps<P, S, Q, T, F: Fn(P) -> Q, G: Fn(S) -> T>(
    f: F,
    g: G,
    a: PathView<P, S>,
    b: PathView<Q, T>,
) -> bool {
    &&& f.ensures((a.start,), b.start)
    &&& a.closed == b.closed
    &&& a.segs.len() == b.segs.len()
    &&& forall|i: int| 0 <= i < a.segs.len() ==> seg_maps(f, g, a.segs[i], #[trigger] b.segs[i])
}

pub open spec fn shape_maps<P, S, Q, T, F: Fn(P) -> Q, G: Fn(S) -> T>(
    f: F,
    g: G,
    a: ShapeView<P, S>,
    b: ShapeView<Q, T>,
) -> bool {
    &&& a.color == b.color
    &&& a.subpaths.len() == b.subpaths.len()
    &&& forall|i: int|
        0 <= i < a.subpaths.len() ==> path_maps(f, g, a.subpaths[i], #[trigger] b.subpaths[i])
}

impl<P: Copy, S: Copy> VectorImage<P, S> {
    /// Take every position through `f` and every length, the canvas size among
    /// them, through `g`. The drawing keeps its structure. Where scaling or
    /// rounding is done this way, a shared border is changed identically on both
    /// sides: doing it per shape would reintroduce exactly the gaps that shared
    /// borders exist to prevent.
    pub fn map<Q: Copy, T: Copy, F: Fn(P) -> Q, G: Fn(S) -> T>(&self, f: &F, g: &G) -> (out:
        VectorImage<Q, T>)
        requires
            forall|p: P| f.requires((p,)),
            forall|s: S| g.requires((s,)),
        ensures
            g.ensures((self.width,), out.width),
            g.ensures((self.height,), out.height),
            out.background == self.background,
            out.shapes@.len() == self.shapes@.len(),
            forall|i: int|
                0 <= i < self.shapes@.len() ==> shape_maps(
                    *f,
                    *g,
                    self.shapes@[i]@,
                    (#[trigger] out.shapes@[i])@,
                ),
    {
        let mut shapes: Vec<Shape<Q, T>> = Vec::new();
        let mut i: usize = 0;
        while i < self.shapes.len()
            invariant
                i <= self.shapes@.len(),
                shapes@.len() == i,
                forall|p: P| f.requires((p,)),
                forall|s: S| g.requires((s,)),
                forall|k: int|
                    0 <= k < i ==> shape_maps(*f, *g, self.shapes@[k]@, (#[trigger] shapes@[k])@),
            decreases self.shapes@.len() - i,
        {
            let shape: &Shape<P, S> = &self.shapes[i];
            let mut subpaths: Vec<SubPath<Q, T>> = Vec::new();
            let mut j: usize = 0;
            while j < shape.subpaths.len()
                invariant
                    j <= shape.subpaths@.len(),
                    subpaths@.len() == j,
                    forall|p: P| f.requires((p,)),
                    forall|s: S| g.requires((s,)),
                    forall|k: int|
                        0 <= k < j ==> path_maps(
                            *f,
                            *g,
                            shape.subpaths@[k]@,
                            (#[trigger] subpaths@[k])@,
                        ),
                decreases shape.subpaths@.len() - j,
            {
                let path: SubPath<Q, T> = map_path(&shape.subpaths[j], f, g);
                subpaths.push(path);
                j = j + 1;
            }
            let mapped = Shape { color: shape.color, subpaths };
            proof {
                assert forall|k: int| 0 <= k < shape@.subpaths.len() implies path_maps(
                    *f,
                    *g,
                    shape@.subpaths[k],
                    #[trigger] mapped@.subpaths[k],
                ) by {
                    assert(mapped@.subpaths[k] == subpaths@[k]@);
                }
            }
            shapes.push(mapped);
            i = i + 1;
        }
        VectorImage {
            width: g(self.width),
            height: g(self.height),
            shapes,
            background: self.background,
        }
    }
}

fn map_path<P: Copy, S: Copy, Q: Copy, T: Copy, F: Fn(P) -> Q, G: Fn(S) -> T>(
    path: &SubPath<P, S>,
    f: &F,
    g: &G,
) -> (out: SubPath<Q, T>)
    requires
        forall|p: P| f.requires((p,)),
        forall|s: S| g.requires((s,)),
    ensures
        path_maps(*f, *g, path@, out@),
{
    let mut segs: Vec<Seg<Q, T>> = Vec::new();
    let mut k: usize = 0;
    while k < path.segs.len()
        invariant
            k <= path.segs@.len(),
            segs@.len() == k,
            forall|p: P| f.requires((p,)),
            forall|s: S| g.requires((s,)),
            forall|i: int| 0 <= i < k ==> seg_maps(*f, *g, path.segs@[i], #[trigger] segs@[i]),
        decreases path.segs@.len() - k,
    {
        let t: Seg<Q, T> = match path.segs[k] {
            Seg::Line { to } => Seg::Line { to: f(to) },
            Seg::Cubic { c1, c2, to } => Seg::Cubic { c1: f(c1), c2: f(c2), to: f(to) },
            Seg::Arc { r, large, sweep, to } => Seg::Arc { r: g(r), large, sweep, to: f(to) },
        };
        segs.push(t);
        k = k + 1;
    }
    SubPath { start: f(path.start), segs, closed: path.closed }
}

// ---- Grouping -----------------------------------------------------------

/// Where `color` first occurs among `shapes`.
pub open spec fn color_at<P, S>(shapes: Seq<ShapeView<P, S>>, color: Rgba8, i: int) -> bool {
    &&& 0 <= i < shapes.len()
    &&& shapes[i].color == color
    &&& forall|j: int| 0 <= j < i ==> (#[trigger] shapes[j]).color != color
}

/// Add one shape to those that are already grouped: its subpaths join the shape
/// of its colour, or it becomes a shape of its own.
pub open spec fn joined<P, S>(
    groups: Seq<ShapeView<P, S>>,
    s: ShapeView<P, S>,
) -> Seq<ShapeView<P, S>> {
    if exists|i: int| color_at(groups, s.color, i) {
        let i = choose|i: int| color_at(groups, s.color, i);
        groups.update(i, ShapeView { color: s.color, subpaths: groups[i].subpaths + s.subpaths })
    } else {
        groups.push(s)
    }
}

/// The shapes merged by colour, colours in the order in which they first occur.
pub open spec fn grouped<P, S>(shapes: Seq<ShapeView<P, S>>) -> Seq<ShapeView<P, S>>
    decreases shapes.len(),
{
    if shapes.len() == 0 {
        Seq::empty()
    } else {
        joined(grouped(shapes.drop_last()), shapes.last())
    }
}

/// Merge shapes that share a fill colour into a single path.
///
/// Safe with the nonzero fill rule even when one such region sits inside
/// another's hole: the hole ring and the inner region's outer ring wind
/// oppositely and cancel, leaving the interior filled exactly once.
pub fn group_by_color<P: Copy, S: Copy>(shapes: Vec<Shape<P, S>>) -> (out: Vec<Shape<P, S>>)
    ensures
        shapes_of(out@) == grouped(shapes_of(shapes@)),
{
    let ghost views = shapes_of(shapes@);
    let mut out: Vec<Shape<P, S>> = Vec::new();
    assert(shapes_of(out@) =~= Seq::<ShapeView<P, S>>::empty());
    let mut k: usize = 0;
    assert(views.take(0) =~= Seq::<ShapeView<P, S>>::empty());
    while k < shapes.len()
        invariant
            k <= shapes@.len(),
            views == shapes_of(shapes@),
            shapes_of(out@) == grouped(views.take(k as int)),
        decreases shapes@.len() - k,
    {
        let ghost groups = shapes_of(out@);
        let ghost s = views[k as int];
        let shape: &Shape<P, S> = &shapes[k];
        proof {
            assert(s == shape@);
            assert(views.take(k + 1).drop_last() =~= views.take(k as int));
            assert(views.take(k + 1).last() == s);
        }
        let mut at: usize = 0;
        while at < out.len() && out[at].color != shape.color
            invariant
                at <= out@.len(),
                groups == shapes_of(out@),
                forall|j: int| 0 <= j < at ==> (#[trigger] groups[j]).color != shape.color,
            decreases out@.len() - at,
        {
            assert(groups[at as int] == out@[at as int]@);
            at = at + 1;
        }
        if at == out.len() {
            let mut subpaths: Vec<SubPath<P, S>> = Vec::new();
            assert(paths_of(subpaths@) =~= Seq::<PathView<P, S>>::empty());
            append_paths(&mut subpaths, &shape.subpaths);
            let ghost out0 = out@;
            out.push(Shape { color: shape.color, subpaths });
            proof {
                assert(Seq::<PathView<P, S>>::empty() + s.subpaths =~= s.subpaths);
                assert(out@[at as int]@ == s);
                assert(shapes_of(out@) =~= groups.push(s));
            }
        } else {
            let ghost g = groups[at as int];
            proof {
                assert(g == out@[at as int]@);
                assert(color_at(groups, s.color, at as int));
                let i = choose|i: int| color_at(groups, s.color, i);
                assert(i == at);
            }
            let ghost out0 = out@;
            append_paths(&mut out[at].subpaths, &shape.subpaths);
            proof {
                assert(shapes_of(out@) =~= groups.update(
                    at as int,
                    ShapeView { color: s.color, subpaths: g.subpaths + s.subpaths },
                ));
            }
        }
        k = k + 1;
    }
    assert(views.take(k as int) =~= views);
    out
}

/// Append copies of `more` to `paths`.
fn append_paths<P: Copy, S: Copy>(paths: &mut Vec<SubPath<P, S>>, more: &Vec<SubPath<P, S>>)
    ensures
        paths_of(final(paths)@) == paths_of(old(paths)@) + paths_of(more@),
{
    let ghost p0 = paths_of(paths@);
    let mut k: usize = 0;
    assert(p0 + paths_of(more@).take(0) =~= p0);
    while k < more.len()
        invariant
            k <= more@.len(),
            paths_of(paths@) == p0 + paths_of(more@).take(k as int),
        decreases more@.len() - k,
    {
        let ghost before = paths@;
        paths.push(more[k].duplicate());
        proof {
            assert(paths_of(paths@) =~= paths_of(before).push(more@[k as int]@));
            assert(paths_of(more@).take(k + 1) =~= paths_of(more@).take(k as int).push(
                more@[k as int]@,
            ));
            assert(p0 + paths_of(more@).take(k + 1) =~= (p0 + paths_of(more@).take(k as int)).push(
                more@[k as int]@,
            ));
        }
        k = k + 1;
    }
    assert(paths_of(more@).take(k as int) =~= paths_of(more@));
}

proof fn lemma_shapes_cost_update<P, S>(
    shapes: Seq<ShapeView<P, S>>,
    i: int,
    extra: Seq<PathView<P, S>>,
)
    requires
        0 <= i < shapes.len(),
    ensures
        shapes_cost(
            shapes.update(
                i,
                ShapeView { color: shapes[i].color, subpaths: shapes[i].subpaths + extra },
            ),
        ) == shapes_cost(shapes).plus(paths_cost(extra)),
    decreases shapes.len(),
{
    let s = ShapeView { color: shapes[i].color, subpaths: shapes[i].subpaths + extra };
    let next = shapes.update(i, s);
    if i == shapes.len() - 1 {
        assert(next.drop_last() =~= shapes.drop_last());
        lemma_paths_cost_add(shapes[i].subpaths, extra);
    } else {
        assert(next.drop_last() =~= shapes.drop_last().update(i, s));
        lemma_shapes_cost_update(shapes.drop_last(), i, extra);
    }
}

/// Grouping by colour neither adds nor loses geometry.
pub proof fn law_grouping_keeps_geometry<P, S>(shapes: Seq<ShapeView<P, S>>)
    ensures
        shapes_cost(grouped(shapes)) == shapes_cost(shapes),
    decreases shapes.len(),
{
    if shapes.len() > 0 {
        law_grouping_keeps_geometry(shapes.drop_last());
        let groups = grouped(shapes.drop_last());
        let s = shapes.last();
        if exists|i: int| color_at(groups, s.color, i) {
            let i = choose|i: int| color_at(groups, s.color, i);
            lemma_shapes_cost_update(groups, i, s.subpaths);
        } else {
            assert(groups.push(s).drop_last() =~= groups);
        }
    }
}

/// After grouping no two shapes share a colour.
pub proof fn law_grouping_separates_colors<P, S>(shapes: Seq<ShapeView<P, S>>)
    ensures
        forall|i: int, j: int|
            0 <= i < j < grouped(shapes).len() ==> (#[trigger] grouped(shapes)[i]).color != (
            #[trigger] grouped(shapes)[j]).color,
        grouped(shapes).len() <= shapes.len(),
    decreases shapes.len(),
{
    if shapes.len() > 0 {
        law_grouping_separates_colors(shapes.drop_last());
        let groups = grouped(shapes.drop_last());
        let s = shapes.last();
        let out = grouped(shapes);
        if exists|i: int| color_at(groups, s.color, i) {
            let i = choose|i: int| color_at(groups, s.color, i);
            assert forall|a: int, b: int| 0 <= a < b < out.len() implies (#[trigger] out[a]).color
                != (#[trigger] out[b]).color by {
                assert(groups[a].color != groups[b].color);
            }
        } else {
            assert forall|a: int, b: int| 0 <= a < b < out.len() implies (#[trigger] out[a]).color
                != (#[trigger] out[b]).color by {
                if b < groups.len() {
                    assert(groups[a].color != groups[b].color);
                } else if groups[a].color == s.color {
                    lemma_first_of_color(groups, s.color, a);
                }
            }
        }
    }
}

/// A colour that occurs has a first occurrence.
proof fn lemma_first_of_color<P, S>(shapes: Seq<ShapeView<P, S>>, color: Rgba8, a: int)
    requires
        0 <= a < shapes.len(),
        shapes[a].color == color,
    ensures
        exists|i: int| color_at(shapes, color, i),
    decreases a,
{
    if forall|j: int| 0 <= j < a ==> (#[trigger] shapes[j]).color != color {
        assert(color_at(shapes, color, a));
    } else {
        let j = choose|j: int| 0 <= j < a && (#[trigger] shapes[j]).color == color;
        lemma_first_of_color(shapes, color, j);
    }
}

/// The subpaths that are painted in one colour, in painting order.
pub open spec fn paths_colored<P, S>(shapes: Seq<ShapeView<P, S>>, color: Rgba8) -> Seq<
    PathView<P, S>,
>
    decreases shapes.len(),
{
    if shapes.len() == 0 {
        Seq::empty()
    } else if shapes.last().color == color {
        paths_colored(shapes.drop_last(), color) + shapes.last().subpaths
    } else {
        paths_colored(shapes.drop_last(), color)
    }
}

proof fn lemma_paths_without<P, S>(shapes: Seq<ShapeView<P, S>>, color: Rgba8)
    requires
        forall|j: int| 0 <= j < shapes.len() ==> (#[trigger] shapes[j]).color != color,
    ensures
        paths_colored(shapes, color) == Seq::<PathView<P, S>>::empty(),
    decreases shapes.len(),
{
    if shapes.len() > 0 {
        assert forall|j: int| 0 <= j < shapes.len() - 1 implies (
        #[trigger] shapes.drop_last()[j]).color != color by {
            assert(shapes[j].color != color);
        }
        lemma_paths_without(shapes.drop_last(), color);
        assert(shapes[shapes.len() - 1].color != color);
    }
}

proof fn lemma_paths_of_one<P, S>(shapes: Seq<ShapeView<P, S>>, color: Rgba8, i: int)
    requires
        0 <= i < shapes.len(),
        shapes[i].color == color,
        forall|j: int| 0 <= j < shapes.len() && j != i ==> (#[trigger] shapes[j]).color != color,
    ensures
        paths_colored(shapes, color) == shapes[i].subpaths,
    decreases shapes.len(),
{
    let rest = shapes.drop_last();
    assert forall|j: int| 0 <= j < rest.len() && j != i implies (#[trigger] rest[j]).color
        != color by {
        assert(shapes[j].color != color);
    }
    if i == shapes.len() - 1 {
        lemma_paths_without(rest, color);
        assert(Seq::<PathView<P, S>>::empty() + shapes[i].subpaths =~= shapes[i].subpaths);
    } else {
        assert(shapes[shapes.len() - 1].color != color);
        lemma_paths_of_one(rest, color, i);
    }
}

/// Grouping keeps every subpath in its colour, and the subpaths of a colour in
/// their order.
pub proof fn law_grouping_keeps_paths_in_their_color<P, S>(
    shapes: Seq<ShapeView<P, S>>,
    color: Rgba8,
)
    ensures
        paths_colored(grouped(shapes), color) == paths_colored(shapes, color),
    decreases shapes.len(),
{
    if shapes.len() > 0 {
        law_grouping_keeps_paths_in_their_color(shapes.drop_last(), color);
        let groups = grouped(shapes.drop_last());
        let s = shapes.last();
        let out = grouped(shapes);
        law_grouping_separates_colors(shapes.drop_last());
        if exists|i: int| color_at(groups, s.color, i) {
            let i = choose|i: int| color_at(groups, s.color, i);
            assert forall|j: int| 0 <= j < groups.len() && j != i implies (
            #[trigger] groups[j]).color != s.color by {
                if j < i {
                    assert(groups[j].color != groups[i].color);
                } else {
                    assert(groups[i].color != groups[j].color);
                }
            }
            if color == s.color {
                lemma_paths_of_one(groups, color, i);
                assert forall|j: int| 0 <= j < out.len() && j != i implies (
                #[trigger] out[j]).color != color by {
                    assert(out[j] == groups[j]);
                }
                lemma_paths_of_one(out, color, i);
            } else if exists|k: int| 0 <= k < groups.len() && (#[trigger] groups[k]).color == color {
                let k = choose|k: int| 0 <= k < groups.len() && (#[trigger] groups[k]).color == color;
                assert forall|j: int| 0 <= j < groups.len() && j != k implies (
                #[trigger] groups[j]).color != color by {
                    if j < k {
                        assert(groups[j].color != groups[k].color);
                    } else {
                        assert(groups[k].color != groups[j].color);
                    }
                }
                lemma_paths_of_one(groups, color, k);
                assert forall|j: int| 0 <= j < out.len() && j != k implies (
                #[trigger] out[j]).color != color by {
                    assert(j == i || out[j] == groups[j]);
                }
                assert(out[k] == groups[k]);
                lemma_paths_of_one(out, color, k);
            } else {
                assert forall|j: int| 0 <= j < groups.len() implies (#[trigger] groups[j]).color
                    != color by {
                }
                lemma_paths_without(groups, color);
                assert forall|j: int| 0 <= j < out.len() implies (#[trigger] out[j]).color
                    != color by {
                    assert(j == i || out[j] == groups[j]);
                }
                lemma_paths_without(out, color);
            }
        } else {
            assert(out.drop_last() =~= groups);
            assert(out.last() == s);
        }
    }
}

// ---- What is counted ----------------------------------------------------

/// How many commands are of a kind.
pub open spec fn how_many<P, S>(segs: Seq<Seg<P, S>>, kind: spec_fn(Seg<P, S>) -> bool) -> nat {
    segs.filter(kind).len()
}

/// A list of commands costs what its commands do: each is a line, a cubic or an arc, a line
/// has no handles, and a cubic and an arc have two.
pub proof fn law_commands_are_counted_by_kind<P, S>(segs: Seq<Seg<P, S>>)
    ensures
        segs_cost(segs).segments == segs.len(),
        segs_cost(segs).lines == how_many(segs, |s: Seg<P, S>| s is Line),
        segs_cost(segs).cubics == how_many(segs, |s: Seg<P, S>| s is Cubic),
        segs_cost(segs).arcs == how_many(segs, |s: Seg<P, S>| s is Arc),
        segs_cost(segs).segments == segs_cost(segs).lines + segs_cost(segs).cubics + segs_cost(
            segs,
        ).arcs,
        segs_cost(segs).handles == 2 * segs_cost(segs).cubics + 2 * segs_cost(segs).arcs,
        segs_cost(segs).anchors == 0,
        segs_cost(segs).subpaths == 0,
    decreases segs.len(),
{
    reveal(Seq::filter);
    if segs.len() > 0 {
        law_commands_are_counted_by_kind(segs.drop_last());
    }
}

/// A subpath counts once, with the points on its curve: one for each command, and one more
/// where it is open, for its start.
pub proof fn law_subpaths_are_counted_with_their_anchors<P, S>(p: PathView<P, S>)
    ensures
        path_cost(p).subpaths == 1,
        path_cost(p).anchors == (if p.closed {
            p.segs.len()
        } else {
            p.segs.len() + 1
        }),
        path_cost(p).segments == p.segs.len(),
        path_cost(p).handles == 2 * path_cost(p).cubics + 2 * path_cost(p).arcs,
        path_cost(p).lines == how_many(p.segs, |s: Seg<P, S>| s is Line),
{
    law_commands_are_counted_by_kind(p.segs);
}

/// A document costs what its shapes do, and a shape what its subpaths do.
pub proof fn law_costs_add_up<P, S>(
    shapes: Seq<ShapeView<P, S>>,
    shape: ShapeView<P, S>,
    paths: Seq<PathView<P, S>>,
    path: PathView<P, S>,
)
    ensures
        shapes_cost(shapes.push(shape)).anchors == shapes_cost(shapes).anchors + paths_cost(
            shape.subpaths,
        ).anchors,
        shapes_cost(shapes.push(shape)).handles == shapes_cost(shapes).handles + paths_cost(
            shape.subpaths,
        ).handles,
        shapes_cost(shapes.push(shape)).segments == shapes_cost(shapes).segments + paths_cost(
            shape.subpaths,
        ).segments,
        shapes_cost(shapes.push(shape)).subpaths == shapes_cost(shapes).subpaths + paths_cost(
            shape.subpaths,
        ).subpaths,
        shapes_cost(shapes.push(shape)).lines == shapes_cost(shapes).lines + paths_cost(
            shape.subpaths,
        ).lines,
        shapes_cost(shapes.push(shape)).cubics == shapes_cost(shapes).cubics + paths_cost(
            shape.subpaths,
        ).cubics,
        shapes_cost(shapes.push(shape)).arcs == shapes_cost(shapes).arcs + paths_cost(
            shape.subpaths,
        ).arcs,
        paths_cost(paths.push(path)).anchors == paths_cost(paths).anchors + path_cost(path).anchors,
        paths_cost(paths.push(path)).handles == paths_cost(paths).handles + path_cost(path).handles,
        paths_cost(paths.push(path)).segments == paths_cost(paths).segments + path_cost(
            path,
        ).segments,
        paths_cost(paths.push(path)).subpaths == paths_cost(paths).subpaths + 1,
{
    assert(shapes.push(shape).drop_last() =~= shapes);
    assert(paths.push(path).drop_last() =~= paths);
    law_subpaths_are_counted_with_their_anchors(path);
}

} // verus!
