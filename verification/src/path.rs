//! Drawing commands and subpaths. `P` is the type of a position, `S` that of a
//! length.

use vstd::prelude::*;

verus! {

/// One drawing command. The start point is implicit: the previous command's
/// end, or the subpath start.
#[derive(Clone, Copy, Debug, PartialEq)]
pub enum Seg<P, S> {
    Line { to: P },
    Cubic { c1: P, c2: P, to: P },
    /// A true circular arc, following the SVG elliptical-arc convention with
    /// equal radii and no rotation.
    Arc { r: S, large: bool, sweep: bool, to: P },
}

/// Where a command ends.
pub open spec fn seg_end<P, S>(s: Seg<P, S>) -> P {
    match s {
        Seg::Line { to } => to,
        Seg::Cubic { c1, c2, to } => to,
        Seg::Arc { r, large, sweep, to } => to,
    }
}

/// The command with its end moved to `p`.
pub open spec fn seg_ending<P, S>(s: Seg<P, S>, p: P) -> Seg<P, S> {
    match s {
        Seg::Line { to } => Seg::Line { to: p },
        Seg::Cubic { c1, c2, to } => Seg::Cubic { c1, c2, to: p },
        Seg::Arc { r, large, sweep, to } => Seg::Arc { r, large, sweep, to: p },
    }
}

/// Number of off-curve control handles a command contributes. An arc lands in
/// an editor as one node with an implied handle pair, so it counts as 2 to keep
/// comparisons against cubic output honest rather than flattering the arc
/// fitter.
pub open spec fn seg_handles<P, S>(s: Seg<P, S>) -> nat {
    match s {
        Seg::Line { to } => 0,
        Seg::Cubic { c1, c2, to } => 2,
        Seg::Arc { r, large, sweep, to } => 2,
    }
}

/// A command drawn backwards, given the point it originally started from.
pub open spec fn seg_reversed<P, S>(s: Seg<P, S>, from: P) -> Seg<P, S> {
    match s {
        Seg::Line { to } => Seg::Line { to: from },
        Seg::Cubic { c1, c2, to } => Seg::Cubic { c1: c2, c2: c1, to: from },
        Seg::Arc { r, large, sweep, to } => Seg::Arc { r, large, sweep: !sweep, to: from },
    }
}

impl<P: Copy, S: Copy> Seg<P, S> {
    pub fn end(&self) -> (p: P)
        ensures
            p == seg_end(*self),
    {
        match *self {
            Seg::Line { to } => to,
            Seg::Cubic { to, .. } => to,
            Seg::Arc { to, .. } => to,
        }
    }

    pub fn set_end(&mut self, p: P)
        ensures
            *final(self) == seg_ending(*old(self), p),
    {
        let next: Seg<P, S> = match *self {
            Seg::Line { .. } => Seg::Line { to: p },
            Seg::Cubic { c1, c2, .. } => Seg::Cubic { c1, c2, to: p },
            Seg::Arc { r, large, sweep, .. } => Seg::Arc { r, large, sweep, to: p },
        };
        *self = next;
    }

    /// Number of off-curve control handles this command contributes.
    pub fn handles(&self) -> (n: usize)
        ensures
            n == seg_handles(*self),
            n <= 2,
    {
        match self {
            Seg::Line { .. } => 0,
            Seg::Cubic { .. } => 2,
            Seg::Arc { .. } => 2,
        }
    }

    /// Reverse this command, given the point it originally started from.
    pub fn reversed(&self, from: P) -> (s: Seg<P, S>)
        ensures
            s == seg_reversed(*self, from),
    {
        match *self {
            Seg::Line { .. } => Seg::Line { to: from },
            Seg::Cubic { c1, c2, .. } => Seg::Cubic { c1: c2, c2: c1, to: from },
            Seg::Arc { r, large, sweep, .. } => Seg::Arc { r, large, sweep: !sweep, to: from },
        }
    }
}

/// The point where command `i` of a list that begins at `start` begins.
pub open spec fn seg_start<P, S>(start: P, segs: Seq<Seg<P, S>>, i: int) -> P {
    if i <= 0 {
        start
    } else {
        seg_end(segs[i - 1])
    }
}

/// Where a list of commands ends.
pub open spec fn path_end<P, S>(start: P, segs: Seq<Seg<P, S>>) -> P {
    seg_start(start, segs, segs.len() as int)
}

/// A list of commands drawn backwards.
pub open spec fn segs_reversed<P, S>(start: P, segs: Seq<Seg<P, S>>) -> Seq<Seg<P, S>> {
    Seq::new(
        segs.len(),
        |k: int|
            seg_reversed(
                segs[segs.len() - 1 - k],
                seg_start(start, segs, segs.len() - 1 - k),
            ),
    )
}

/// Reverse a fitted command list that runs from `start` to its final point.
pub fn reverse_segs<P: Copy, S: Copy>(start: P, segs: &Vec<Seg<P, S>>) -> (out: Vec<Seg<P, S>>)
    ensures
        out@ == segs_reversed(start, segs@),
{
    let mut out: Vec<Seg<P, S>> = Vec::new();
    let n: usize = segs.len();
    let mut k: usize = 0;
    while k < n
        invariant
            k <= n,
            n == segs@.len(),
            out@.len() == k,
            forall|j: int| 0 <= j < k ==> #[trigger] out@[j] == segs_reversed(start, segs@)[j],
        decreases n - k,
    {
        let i: usize = n - 1 - k;
        let from: P = if i == 0 {
            start
        } else {
            segs[i - 1].end()
        };
        out.push(segs[i].reversed(from));
        k = k + 1;
    }
    assert(out@ =~= segs_reversed(start, segs@));
    out
}

/// Drawing a list of commands backwards ends where it began.
pub proof fn law_reversal_swaps_ends<P, S>(start: P, segs: Seq<Seg<P, S>>)
    ensures
        path_end(path_end(start, segs), segs_reversed(start, segs)) == start,
        segs_reversed(start, segs).len() == segs.len(),
{
}

/// Drawing a list of commands backwards twice gives it back.
pub proof fn law_reversal_is_an_involution<P, S>(start: P, segs: Seq<Seg<P, S>>)
    ensures
        segs_reversed(path_end(start, segs), segs_reversed(start, segs)) == segs,
{
    let end = path_end(start, segs);
    let back = segs_reversed(start, segs);
    let again = segs_reversed(end, back);
    let n = segs.len() as int;
    assert forall|k: int| 0 <= k < n implies #[trigger] again[k] == segs[k] by {
        let i = n - 1 - k;
        assert(back[i] == seg_reversed(segs[k], seg_start(start, segs, k)));
        // Command `i` of the reversed list begins where command `k` ended.
        assert(seg_start(end, back, i) == seg_end(segs[k])) by {
            if i > 0 {
                assert(back[i - 1] == seg_reversed(segs[k + 1], seg_start(start, segs, k + 1)));
            }
        }
        assert(again[k] == seg_reversed(back[i], seg_end(segs[k])));
    }
    assert(again =~= segs);
}

/// Sum of the handles of a list of commands.
pub open spec fn segs_handles<P, S>(segs: Seq<Seg<P, S>>) -> nat
    decreases segs.len(),
{
    if segs.len() == 0 {
        0
    } else {
        segs_handles(segs.drop_last()) + seg_handles(segs.last())
    }
}

pub proof fn lemma_handles_bound<P, S>(segs: Seq<Seg<P, S>>, k: int)
    requires
        0 <= k <= segs.len(),
    ensures
        segs_handles(segs.take(k)) <= segs_handles(segs),
    decreases segs.len(),
{
    if k == segs.len() {
        assert(segs.take(k) =~= segs);
    } else {
        assert(segs.drop_last().take(k) =~= segs.take(k));
        lemma_handles_bound(segs.drop_last(), k);
    }
}

pub proof fn lemma_handles_add<P, S>(a: Seq<Seg<P, S>>, b: Seq<Seg<P, S>>)
    ensures
        segs_handles(a + b) == segs_handles(a) + segs_handles(b),
    decreases b.len(),
{
    if b.len() == 0 {
        assert(a + b =~= a);
    } else {
        assert((a + b).drop_last() =~= a + b.drop_last());
        lemma_handles_add(a, b.drop_last());
    }
}

pub struct SubPath<P, S> {
    pub start: P,
    pub segs: Vec<Seg<P, S>>,
    pub closed: bool,
}

/// What a [`SubPath`] draws.
pub ghost struct PathView<P, S> {
    pub start: P,
    pub segs: Seq<Seg<P, S>>,
    pub closed: bool,
}

impl<P, S> View for SubPath<P, S> {
    type V = PathView<P, S>;

    open spec fn view(&self) -> PathView<P, S> {
        PathView { start: self.start, segs: self.segs@, closed: self.closed }
    }
}

impl<P, S> PathView<P, S> {
    /// On-curve anchor points. A closed subpath's last anchor coincides with
    /// its start, so it is not counted twice.
    pub open spec fn anchors(self) -> nat {
        if self.closed {
            self.segs.len()
        } else {
            self.segs.len() + 1
        }
    }
}

impl<P: Copy, S: Copy> SubPath<P, S> {
    pub fn new(start: P) -> (s: Self)
        ensures
            s@ == (PathView { start, segs: Seq::<Seg<P, S>>::empty(), closed: false }),
    {
        SubPath { start, segs: Vec::new(), closed: false }
    }

    pub fn end(&self) -> (p: P)
        ensures
            p == path_end(self.start, self.segs@),
    {
        let n: usize = self.segs.len();
        if n == 0 {
            self.start
        } else {
            self.segs[n - 1].end()
        }
    }

    /// On-curve anchor points. A closed subpath's last anchor coincides with
    /// its start, so it is not counted twice.
    pub fn anchors(&self) -> (n: usize)
        requires
            self.segs@.len() < usize::MAX,
        ensures
            n == self@.anchors(),
    {
        if self.closed {
            self.segs.len()
        } else {
            self.segs.len() + 1
        }
    }

    pub fn handles(&self) -> (n: usize)
        requires
            segs_handles(self.segs@) <= usize::MAX,
        ensures
            n == segs_handles(self.segs@),
    {
        count_handles(&self.segs)
    }

    /// A subpath that draws the same.
    pub fn duplicate(&self) -> (s: Self)
        ensures
            s@ == self@,
    {
        SubPath { start: self.start, segs: copy_segs(&self.segs), closed: self.closed }
    }

    /// Flatten to a polyline: the start, then the end of each line, and for each
    /// curve the points that `curves` holds for it.
    pub fn flatten(&self, curves: &Vec<Vec<P>>) -> (out: Vec<P>)
        requires
            curves@.len() == self.segs@.len(),
        ensures
            out@ == flattened(self.start, self.segs@, curves@, self.segs@.len() as int),
    {
        let mut out: Vec<P> = Vec::new();
        out.push(self.start);
        assert(out@ =~= seq![self.start]);
        let mut k: usize = 0;
        while k < self.segs.len()
            invariant
                k <= self.segs@.len(),
                curves@.len() == self.segs@.len(),
                out@ == flattened(self.start, self.segs@, curves@, k as int),
            decreases self.segs@.len() - k,
        {
            let ghost before = out@;
            match self.segs[k] {
                Seg::Line { to } => {
                    out.push(to);
                },
                _ => {
                    let piece: &Vec<P> = &curves[k];
                    let mut i: usize = 0;
                    while i < piece.len()
                        invariant
                            i <= piece@.len(),
                            out@ == before + piece@.take(i as int),
                        decreases piece@.len() - i,
                    {
                        out.push(piece[i]);
                        assert(out@ =~= before + piece@.take(i + 1));
                        i = i + 1;
                    }
                    assert(piece@.take(i as int) =~= piece@);
                },
            }
            k = k + 1;
        }
        out
    }
}

/// The polyline of the first `k` commands.
pub open spec fn flattened<P, S>(
    start: P,
    segs: Seq<Seg<P, S>>,
    curves: Seq<Vec<P>>,
    k: int,
) -> Seq<P>
    decreases k,
{
    if k <= 0 {
        seq![start]
    } else {
        let rest = flattened(start, segs, curves, k - 1);
        match segs[k - 1] {
            Seg::Line { to } => rest.push(to),
            _ => rest + curves[k - 1]@,
        }
    }
}

/// Total off-curve handles in a command list.
pub fn count_handles<P: Copy, S: Copy>(segs: &Vec<Seg<P, S>>) -> (n: usize)
    requires
        segs_handles(segs@) <= usize::MAX,
    ensures
        n == segs_handles(segs@),
{
    let mut n: usize = 0;
    let mut k: usize = 0;
    while k < segs.len()
        invariant
            k <= segs@.len(),
            segs_handles(segs@) <= usize::MAX,
            n == segs_handles(segs@.take(k as int)),
        decreases segs@.len() - k,
    {
        proof {
            lemma_handles_bound(segs@, k + 1);
            assert(segs@.take(k + 1).drop_last() =~= segs@.take(k as int));
        }
        n = n + segs[k].handles();
        k = k + 1;
    }
    assert(segs@.take(k as int) =~= segs@);
    n
}

/// A copy of a list of commands.
pub fn copy_segs<P: Copy, S: Copy>(v: &Vec<Seg<P, S>>) -> (c: Vec<Seg<P, S>>)
    ensures
        c@ == v@,
{
    let mut c: Vec<Seg<P, S>> = Vec::new();
    let mut i: usize = 0;
    while i < v.len()
        invariant
            i <= v@.len(),
            c@ == v@.take(i as int),
        decreases v@.len() - i,
    {
        c.push(v[i]);
        assert(v@.take(i + 1) =~= v@.take(i as int).push(v@[i as int]));
        i = i + 1;
    }
    assert(v@.take(i as int) =~= v@);
    c
}

// ---- What is drawn ------------------------------------------------------

/// Where command `k` begins: at the start of the path or at the end of the one before it.
pub open spec fn begins<P, S>(start: P, segs: Seq<Seg<P, S>>, k: int) -> P {
    if k == 0 {
        start
    } else {
        match segs[k - 1] {
            Seg::Line { to } => to,
            Seg::Cubic { c1, c2, to } => to,
            Seg::Arc { r, large, sweep, to } => to,
        }
    }
}

/// Backwards, the commands come in the opposite order and each is the same curve gone the
/// other way: a line back to where it began, a cubic with its handles exchanged, an arc of
/// the same circle and extent that turns the other way.
pub proof fn law_reversal_draws_the_same_curves<P, S>(start: P, segs: Seq<Seg<P, S>>, k: int)
    requires
        0 <= k < segs.len(),
    ensures
        segs_reversed(start, segs).len() == segs.len(),
        ({
            let back = segs_reversed(start, segs)[segs.len() - 1 - k];
            let from = begins(start, segs, k);
            match segs[k] {
                Seg::Line { to } => back == Seg::<P, S>::Line { to: from },
                Seg::Cubic { c1, c2, to } => back == Seg::<P, S>::Cubic { c1: c2, c2: c1, to: from },
                Seg::Arc { r, large, sweep, to } => back == Seg::Arc {
                    r,
                    large,
                    sweep: !sweep,
                    to: from,
                },
            }
        }),
{
}

/// Moving the end of a command keeps the rest of it.
pub proof fn law_moving_an_end_keeps_the_rest<P, S>(s: Seg<P, S>, p: P)
    ensures
        seg_end(seg_ending(s, p)) == p,
        seg_ending(seg_ending(s, p), seg_end(s)) == s,
        s is Line <==> seg_ending(s, p) is Line,
        s is Cubic <==> seg_ending(s, p) is Cubic,
{
}

/// A flattened path begins at its start; each line adds its end, and each curve the points
/// that it was flattened to.
pub proof fn law_flattening_follows_the_commands<P, S>(
    start: P,
    segs: Seq<Seg<P, S>>,
    curves: Seq<Vec<P>>,
    k: int,
)
    requires
        0 <= k < segs.len(),
    ensures
        flattened(start, segs, curves, 0) == seq![start],
        flattened(start, segs, curves, k).len() > 0,
        flattened(start, segs, curves, k)[0] == start,
        ({
            let before = flattened(start, segs, curves, k);
            let after = flattened(start, segs, curves, k + 1);
            &&& after.take(before.len() as int) == before
            &&& segs[k] is Line ==> after.len() == before.len() + 1 && after.last() == begins(
                start,
                segs,
                k + 1,
            )
            &&& !(segs[k] is Line) ==> after.skip(before.len() as int) == curves[k]@
        }),
    decreases k,
{
    if k > 0 {
        law_flattening_follows_the_commands(start, segs, curves, k - 1);
    }
    let before = flattened(start, segs, curves, k);
    let after = flattened(start, segs, curves, k + 1);
    assert(after.take(before.len() as int) =~= before);
    if !(segs[k] is Line) {
        assert(after.skip(before.len() as int) =~= curves[k]@);
    }
}

} // verus!
