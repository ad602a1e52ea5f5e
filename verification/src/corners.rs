//! Corner detection: which bends are something the artist drew.
//!
//! A vertex is a corner only if it is sharp *persistently*, across scales: a
//! real corner keeps turning by the same angle however wide the neighbourhood,
//! while a staircase or a burst of compression noise turns sharply at one pixel
//! and not at all at eight.

use crate::config::CornerConfig;
use crate::cracks::Arc;
use crate::order::{ascending, is_stable_order, marked_indices, stable_order, Rank};
use crate::pure::{call1, call2, call3, pure1, pure2, pure3, pure4, value1, value2, value3};
use crate::smoothing::{contour_smoothed, law_corners_never_move, smooth_contour};
use crate::subpixel::copy_points;
use crate::topology::{same_but_ends, Topology};
use vstd::prelude::*;

verus! {

/// Cyclic or clamped index into a contour.
pub struct Indexer {
    pub n: usize,
    pub closed: bool,
}

impl Indexer {
    /// The number of distinct vertices.
    pub open spec fn count(&self) -> int {
        if self.closed {
            self.n - 1
        } else {
            self.n as int
        }
    }

    /// The vertex `off` steps after vertex `i`, if there is one.
    pub open spec fn step(&self, i: int, off: int) -> Option<usize> {
        if self.closed {
            if self.count() <= 0 {
                None
            } else {
                Some(((i + off) % self.count()) as usize)
            }
        } else if 0 <= i + off < self.n {
            Some((i + off) as usize)
        } else {
            None
        }
    }

    /// Number of distinct vertices. A closed contour repeats its first point at
    /// the end, so that duplicate is excluded.
    pub fn distinct(&self) -> (m: usize)
        requires
            self.closed ==> self.n >= 1,
        ensures
            m == self.count(),
    {
        if self.closed {
            self.n - 1
        } else {
            self.n
        }
    }

    pub fn at(&self, i: usize, off: isize) -> (v: Option<usize>)
        requires
            i < self.n,
            self.n <= isize::MAX,
        ensures
            v == self.step(i as int, off as int),
    {
        if self.closed {
            let m: usize = self.distinct();
            if m == 0 {
                return None;
            }
            let base: usize = i % m;
            if off >= 0 {
                let k: usize = off as usize % m;
                proof {
                    lemma_mod_shift(i as int, off as int, m as int);
                }
                Some((base + k) % m)
            } else {
                let back: u128 = (-(off as i128)) as u128;
                let k: usize = (back % m as u128) as usize;
                proof {
                    lemma_mod_back(i as int, -off as int, m as int);
                }
                Some((base + (m - k)) % m)
            }
        } else if off >= 0 {
            if (off as usize) < self.n - i {
                Some(i + off as usize)
            } else {
                None
            }
        } else {
            let v: i128 = i as i128 + off as i128;
            if v >= 0 {
                Some(v as usize)
            } else {
                None
            }
        }
    }
}

proof fn lemma_mod_shift(i: int, off: int, m: int)
    requires
        m > 0,
    ensures
        (i % m + off % m) % m == (i + off) % m,
        0 <= i % m < m,
        0 <= off % m < m,
{
    vstd::arithmetic::div_mod::lemma_add_mod_noop(i, off, m);
    vstd::arithmetic::div_mod::lemma_mod_bound(i, m);
    vstd::arithmetic::div_mod::lemma_mod_bound(off, m);
}

proof fn lemma_mod_back(i: int, k: int, m: int)
    requires
        m > 0,
    ensures
        (i % m + (m - k % m)) % m == (i - k) % m,
        0 <= i % m < m,
        0 <= k % m < m,
{
    vstd::arithmetic::div_mod::lemma_sub_mod_noop(i, k, m);
    vstd::arithmetic::div_mod::lemma_mod_bound(i, m);
    vstd::arithmetic::div_mod::lemma_mod_bound(k, m);
    let d = i % m - k % m;
    vstd::arithmetic::div_mod::lemma_mod_add_multiples_vanish(d, m);
    assert(i % m + (m - k % m) == m + d);
}

/// The vertices `k` steps either side of vertex `i`, if both exist.
pub open spec fn flank(n: int, closed: bool, i: int, k: int) -> Option<(usize, usize)> {
    let ix = Indexer { n: n as usize, closed };
    match (ix.step(i, -k), ix.step(i, k)) {
        (Some(a), Some(b)) => Some((a, b)),
        _ => None,
    }
}

pub(crate) fn flank_of(n: usize, closed: bool, i: usize, k: usize) -> (v: Option<(usize, usize)>)
    requires
        i < n <= isize::MAX,
        k <= isize::MAX,
        n >= 2,
    ensures
        v == flank(n as int, closed, i as int, k as int),
        v matches Some((a, b)) ==> a < n && b < n,
{
    let ix = Indexer { n, closed };
    let a: Option<usize> = ix.at(i, -(k as isize));
    let b: Option<usize> = ix.at(i, k as isize);
    match (a, b) {
        (Some(a), Some(b)) => Some((a, b)),
        _ => None,
    }
}

/// Whether a vertex counts as a corner candidate: of the `scales` neighbourhood
/// sizes enough fit on the contour, and of the `tested` ones a large enough
/// fraction, `persistence` in billionths, showed a sharp turn.
///
/// Within a couple of vertices of an open arc's end the wide neighbourhoods run
/// off the edge and only the finest can be measured, which alone calls every
/// staircase step a corner; hence at least three must fit, or all there are.
pub open spec fn persistent(hits: int, tested: int, scales: int, persistence: int) -> bool {
    &&& tested > 0
    &&& tested >= (if scales < 3 {
        scales
    } else {
        3
    })
    &&& hits * 1_000_000_000 >= persistence * tested
}

/// See [`persistent`].
pub fn is_persistent(hits: usize, tested: usize, scales: usize, persistence: i64) -> (b: bool)
    requires
        hits <= tested,
    ensures
        b == persistent(hits as int, tested as int, scales as int, persistence as int),
{
    let enough: usize = if scales < 3 {
        scales
    } else {
        3
    };
    assert(-0x8000_0000_0000_0000 * 0xffff_ffff_ffff_ffff <= persistence * tested
        <= 0x7fff_ffff_ffff_ffff * 0xffff_ffff_ffff_ffff) by (nonlinear_arith)
        requires
            -0x8000_0000_0000_0000 <= persistence <= 0x7fff_ffff_ffff_ffff,
            0 <= tested <= 0xffff_ffff_ffff_ffff,
    ;
    tested > 0 && tested >= enough && hits as i128 * 1_000_000_000 >= persistence as i128
        * tested as i128
}

/// The neighbourhood sizes of at least 1, smallest first; `[1]` where there is
/// none.
pub open spec fn are_effective_scales(scales: Seq<usize>, out: Seq<usize>) -> bool {
    let positive = scales.filter(|s: usize| s >= 1);
    &&& out.len() > 0
    &&& forall|k: int, l: int|
        0 <= k < l < out.len() ==> (#[trigger] out[k]) <= (#[trigger] out[l])
    &&& if positive.len() == 0 {
        out == seq![1usize]
    } else {
        out.to_multiset() == positive.to_multiset()
    }
}

/// See [`are_effective_scales`].
pub fn effective_scales(scales: &Vec<usize>) -> (out: Vec<usize>)
    ensures
        are_effective_scales(scales@, out@),
{
    broadcast use vstd::seq_lib::group_to_multiset_ensures;

    let ghost pick = |s: usize| s >= 1;
    let mut out: Vec<usize> = Vec::new();
    let mut i: usize = 0;
    assert(scales@.take(0).filter(pick) =~= Seq::<usize>::empty()) by {
        reveal(Seq::filter);
    }
    while i < scales.len()
        invariant
            i <= scales@.len(),
            pick == (|s: usize| s >= 1),
            forall|k: int, l: int|
                0 <= k < l < out@.len() ==> (#[trigger] out@[k]) <= (#[trigger] out@[l]),
            out@.to_multiset() == scales@.take(i as int).filter(pick).to_multiset(),
            out@.len() == scales@.take(i as int).filter(pick).len(),
        decreases scales@.len() - i,
    {
        broadcast use vstd::seq_lib::group_to_multiset_ensures;

        let s: usize = scales[i];
        let ghost before = out@;
        let ghost rest = scales@.take(i as int).filter(pick);
        proof {
            reveal(Seq::filter);
            assert(scales@.take(i + 1).drop_last() =~= scales@.take(i as int));
            assert(scales@.take(i + 1).last() == s);
        }
        if s >= 1 {
            // Insert in order.
            let mut at: usize = out.len();
            while at > 0 && out[at - 1] > s
                invariant
                    at <= out@.len(),
                    out@ == before,
                    forall|k: int| at <= k < out@.len() ==> (#[trigger] out@[k]) > s,
                decreases at,
            {
                at = at - 1;
            }
            out.insert(at, s);
            proof {
                assert(out@ == before.insert(at as int, s));
                assert(out@.to_multiset() =~= before.to_multiset().insert(s));
                assert(scales@.take(i + 1).filter(pick) == rest.push(s));
                assert(rest.push(s).to_multiset() =~= rest.to_multiset().insert(s));
                assert forall|k: int, l: int| 0 <= k < l < out@.len() implies (#[trigger] out@[k])
                    <= (#[trigger] out@[l]) by {
                    if k < at && l < at {
                        assert(before[k] <= before[l]);
                    } else if k < at && l == at {
                        assert(k <= at - 1);
                        if k < at - 1 {
                            assert(before[k] <= before[at - 1]);
                        }
                    } else if k < at && l > at {
                        assert(before[k] <= before[l - 1]);
                    } else if k == at {
                        assert(before[l - 1] > s);
                    } else {
                        assert(before[k - 1] <= before[l - 1]);
                    }
                }
            }
        }
        i = i + 1;
    }
    assert(scales@.take(i as int) =~= scales@);
    if out.len() == 0 {
        out.push(1);
        assert(out@ =~= seq![1usize]);
    }
    out
}

// ---- Non-maximum suppression --------------------------------------------

/// Distance in vertices between `i` and `j`, the short way round where the
/// contour of `m` distinct vertices is closed.
pub open spec fn vertex_distance(i: int, j: int, m: int, closed: bool) -> int {
    let raw = if i >= j {
        i - j
    } else {
        j - i
    };
    if closed && m - raw < raw {
        m - raw
    } else {
        raw
    }
}

/// `i` is too close to one of the accepted vertices.
pub open spec fn clashes(
    accepted: Seq<usize>,
    i: usize,
    m: int,
    closed: bool,
    radius: int,
) -> bool {
    exists|k: int|
        0 <= k < accepted.len() && vertex_distance(
            i as int,
            #[trigger] accepted[k] as int,
            m,
            closed,
        ) <= radius
}

/// The vertices accepted of the first `k` candidates in `order`.
pub open spec fn accepted_upto(
    at: Seq<usize>,
    order: Seq<usize>,
    m: int,
    closed: bool,
    radius: int,
    k: int,
) -> Seq<usize>
    decreases k,
{
    if k <= 0 {
        Seq::empty()
    } else {
        let rest = accepted_upto(at, order, m, closed, radius, k - 1);
        let i = at[order[k - 1] as int];
        if clashes(rest, i, m, closed, radius) {
            rest
        } else {
            rest.push(i)
        }
    }
}

/// Sort keys that put the strongest candidate first.
pub open spec fn strength_keys(strength: Seq<i64>) -> Seq<Rank> {
    Seq::new(
        strength.len(),
        |k: int| Rank { first: (-1 - strength[k]) as i64, second: 0, third: 0, fourth: 0 },
    )
}

/// `accepted` is what non-maximum suppression leaves of the candidates at
/// vertices `at`: from the strongest down, equal ones in order, each is taken
/// unless it is within `radius` of one taken before.
pub open spec fn is_suppressed(
    at: Seq<usize>,
    strength: Seq<i64>,
    m: int,
    closed: bool,
    radius: int,
    accepted: Seq<usize>,
) -> bool {
    exists|order: Seq<usize>| #[trigger]
        is_stable_order(strength_keys(strength), order) && accepted == accepted_upto(
            at,
            order,
            m,
            closed,
            radius,
            order.len() as int,
        )
}

fn distance(i: usize, j: usize, m: usize, closed: bool) -> (d: usize)
    requires
        i < m,
        j < m,
    ensures
        d == vertex_distance(i as int, j as int, m as int, closed),
{
    let raw: usize = if i >= j {
        i - j
    } else {
        j - i
    };
    if closed && m - raw < raw {
        m - raw
    } else {
        raw
    }
}

/// Non-maximum suppression: a sharp corner usually trips the test at its
/// immediate neighbours too, and keeping all of them would spend three anchors
/// where one belongs. `strength` orders the candidates.
pub fn suppress(
    at: &Vec<usize>,
    strength: &Vec<i64>,
    m: usize,
    closed: bool,
    radius: usize,
) -> (accepted: Vec<usize>)
    requires
        at@.len() == strength@.len(),
        forall|k: int| 0 <= k < at@.len() ==> (#[trigger] at@[k]) < m,
    ensures
        is_suppressed(at@, strength@, m as int, closed, radius as int, accepted@),
        forall|k: int| 0 <= k < accepted@.len() ==> (#[trigger] accepted@[k]) < m,
{
    let mut keys: Vec<Rank> = Vec::new();
    let mut k: usize = 0;
    while k < strength.len()
        invariant
            k <= strength@.len(),
            keys@.len() == k,
            forall|j: int| 0 <= j < k ==> #[trigger] keys@[j] == strength_keys(strength@)[j],
        decreases strength@.len() - k,
    {
        keys.push(Rank { first: -1 - strength[k], second: 0, third: 0, fourth: 0 });
        k = k + 1;
    }
    assert(keys@ =~= strength_keys(strength@));
    let order: Vec<usize> = stable_order(&keys);
    let mut accepted: Vec<usize> = Vec::new();
    let mut k: usize = 0;
    assert(accepted@ =~= accepted_upto(at@, order@, m as int, closed, radius as int, 0));
    while k < order.len()
        invariant
            k <= order@.len(),
            keys@.len() == at@.len(),
            is_stable_order(keys@, order@),
            forall|j: int| 0 <= j < at@.len() ==> (#[trigger] at@[j]) < m,
            forall|j: int| 0 <= j < accepted@.len() ==> (#[trigger] accepted@[j]) < m,
            accepted@ == accepted_upto(
                at@,
                order@,
                m as int,
                closed,
                radius as int,
                k as int,
            ),
        decreases order@.len() - k,
    {
        assert(order@[k as int] < keys@.len());
        let i: usize = at[order[k]];
        assert(i < m) by {
            assert(at@[order@[k as int] as int] < m);
        }
        let mut clash: bool = false;
        let mut j: usize = 0;
        while j < accepted.len()
            invariant
                j <= accepted@.len(),
                i < m,
                forall|q: int| 0 <= q < accepted@.len() ==> (#[trigger] accepted@[q]) < m,
                clash <==> exists|q: int|
                    0 <= q < j && vertex_distance(
                        i as int,
                        #[trigger] accepted@[q] as int,
                        m as int,
                        closed,
                    ) <= radius,
            decreases accepted@.len() - j,
        {
            if distance(i, accepted[j], m, closed) <= radius {
                clash = true;
            }
            j = j + 1;
        }
        assert(clash == clashes(accepted@, i, m as int, closed, radius as int));
        if !clash {
            accepted.push(i);
        }
        k = k + 1;
    }
    accepted
}

/// Accepted corners keep their distance from each other.
pub proof fn law_suppressed_corners_are_apart(
    at: Seq<usize>,
    order: Seq<usize>,
    m: int,
    closed: bool,
    radius: int,
    k: int,
)
    ensures
        ({
            let out = accepted_upto(at, order, m, closed, radius, k);
            forall|a: int, b: int|
                0 <= a < b < out.len() ==> vertex_distance(
                    #[trigger] out[b] as int,
                    #[trigger] out[a] as int,
                    m,
                    closed,
                ) > radius
        }),
    decreases k,
{
    if k > 0 {
        law_suppressed_corners_are_apart(at, order, m, closed, radius, k - 1);
        let rest = accepted_upto(at, order, m, closed, radius, k - 1);
        let out = accepted_upto(at, order, m, closed, radius, k);
        assert forall|a: int, b: int| 0 <= a < b < out.len() implies vertex_distance(
            #[trigger] out[b] as int,
            #[trigger] out[a] as int,
            m,
            closed,
        ) > radius by {
            if b < rest.len() {
                assert(out[a] == rest[a] && out[b] == rest[b]);
            } else {
                assert(out[a] == rest[a]);
            }
        }
    }
}

/// The number of distinct vertices among `n` points: a closed contour repeats its
/// first point at the end.
pub open spec fn distinct_vertices(n: int, closed: bool) -> int {
    if closed {
        n - 1
    } else {
        n
    }
}

/// The hard corners of a contour of `n` points: the accepted vertices and, on an
/// open contour, its two ends. Junction endpoints always anchor: three regions
/// meet there, and rounding that point would pull all of them apart. A contour
/// of fewer than three distinct vertices has no others.
pub open spec fn are_corners(
    corners: Seq<usize>,
    n: int,
    closed: bool,
    accepted: Seq<usize>,
) -> bool {
    &&& ascending(corners)
    &&& forall|i: usize|
        #[trigger] corners.contains(i) <==> i < n && (accepted.contains(i) || (!closed && (i == 0
            || i == n - 1)))
}

/// The corner list of one contour. `at` and `strength` are the candidates and
/// how sharp they are.
pub fn contour_corners(
    n: usize,
    closed: bool,
    at: &Vec<usize>,
    strength: &Vec<i64>,
    radius: usize,
) -> (corners: Vec<usize>)
    requires
        n >= 1,
        at@.len() == strength@.len(),
        forall|k: int|
            0 <= k < at@.len() ==> (#[trigger] at@[k]) < distinct_vertices(n as int, closed),
    ensures
        distinct_vertices(n as int, closed) < 3 ==> are_corners(
            corners@,
            n as int,
            closed,
            Seq::empty(),
        ),
        distinct_vertices(n as int, closed) >= 3 ==> exists|accepted: Seq<usize>| #[trigger]
            is_suppressed(
                at@,
                strength@,
                distinct_vertices(n as int, closed),
                closed,
                radius as int,
                accepted,
            ) && are_corners(corners@, n as int, closed, accepted),
        ascending(corners@),
        forall|k: int|
            0 <= k < corners@.len() ==> (#[trigger] corners@[k]) < distinct_vertices(
                n as int,
                closed,
            ),
{
    let m: usize = if closed {
        n - 1
    } else {
        n
    };
    let accepted: Vec<usize> = if m < 3 {
        Vec::new()
    } else {
        suppress(at, strength, m, closed, radius)
    };
    let mut marked: Vec<bool> = Vec::new();
    let mut i: usize = 0;
    while i < n
        invariant
            i <= n,
            n >= 1,
            marked@.len() == i,
            forall|j: int|
                0 <= j < i ==> #[trigger] marked@[j] == (!closed && (j == 0 || j == n - 1)),
        decreases n - i,
    {
        marked.push(!closed && (i == 0 || i == n - 1));
        i = i + 1;
    }
    let mut k: usize = 0;
    while k < accepted.len()
        invariant
            k <= accepted@.len(),
            n >= 1,
            m <= n,
            marked@.len() == n,
            forall|j: int| 0 <= j < accepted@.len() ==> (#[trigger] accepted@[j]) < m,
            forall|j: int|
                0 <= j < n ==> #[trigger] marked@[j] == ((!closed && (j == 0 || j == n - 1))
                    || accepted@.take(k as int).contains(j as usize)),
        decreases accepted@.len() - k,
    {
        let c: usize = accepted[k];
        let ghost before = marked@;
        marked.set(c, true);
        proof {
            let less = accepted@.take(k as int);
            let more = accepted@.take(k + 1);
            assert(more =~= less.push(c));
            assert forall|j: int| 0 <= j < n implies #[trigger] marked@[j] == ((!closed && (j == 0
                || j == n - 1)) || more.contains(j as usize)) by {
                assert(before[j] == ((!closed && (j == 0 || j == n - 1)) || less.contains(
                    j as usize,
                )));
                if less.contains(j as usize) {
                    let q = choose|q: int| 0 <= q < less.len() && less[q] == j as usize;
                    assert(more[q] == j as usize);
                }
                if j == c {
                    assert(more[k as int] == j as usize);
                }
                if more.contains(j as usize) && j != c {
                    let q = choose|q: int| 0 <= q < more.len() && more[q] == j as usize;
                    assert(less[q] == j as usize);
                }
            }
        }
        k = k + 1;
    }
    assert(accepted@.take(k as int) =~= accepted@);
    let corners: Vec<usize> = marked_indices(&marked);
    proof {
        assert(are_corners(corners@, n as int, closed, accepted@));
        assert forall|k: int| 0 <= k < corners@.len() implies (#[trigger] corners@[k]) < m by {
            let c = corners@[k];
            assert(corners@.contains(c));
            if accepted@.contains(c) {
                let q = choose|q: int| 0 <= q < accepted@.len() && accepted@[q] == c;
                assert(accepted@[q] < m);
            }
        }
        if m < 3 {
            assert(accepted@ =~= Seq::<usize>::empty());
        } else {
            assert(is_suppressed(at@, strength@, m as int, closed, radius as int, accepted@));
        }
    }
    corners
}

// ---- Analysis of one contour --------------------------------------------

/// How sharply the contour turns at vertex `i`, measured over a neighbourhood of
/// `s` vertices either side. `None` when the contour is too short to look that
/// far, or when the three points give no angle.
pub open spec fn turn_at<P, T, FT: Fn(P, P, P) -> Option<T>>(
    turn: FT,
    pts: Seq<P>,
    closed: bool,
    i: int,
    s: int,
) -> Option<T> {
    match flank(pts.len() as int, closed, i, s) {
        Some((a, b)) => value3(turn, pts[a as int], pts[i], pts[b as int]),
        None => None,
    }
}

/// See [`turn_at`].
pub fn turn_at_scale<P: Copy, T, FT: Fn(P, P, P) -> Option<T>>(
    turn: &FT,
    pts: &Vec<P>,
    closed: bool,
    i: usize,
    s: usize,
) -> (t: Option<T>)
    requires
        pure3(*turn),
        i < pts@.len() <= isize::MAX,
        pts@.len() >= 2,
        s <= isize::MAX,
    ensures
        t == turn_at(*turn, pts@, closed, i as int, s as int),
{
    match flank_of(pts.len(), closed, i, s) {
        Some((a, b)) => call3(turn, pts[a], pts[i], pts[b]),
        None => None,
    }
}

/// Of the first `k` scales: how many showed a sharp turn at vertex `i`, how many
/// could be measured, and all that was measured, gathered up.
pub open spec fn survey_upto<
    P,
    T,
    S,
    FT: Fn(P, P, P) -> Option<T>,
    FH: Fn(T) -> bool,
    FG: Fn(S, T) -> S,
>(
    turn: FT,
    sharp: FH,
    gather: FG,
    zero: S,
    pts: Seq<P>,
    closed: bool,
    scales: Seq<usize>,
    i: int,
    k: int,
) -> (int, int, S)
    decreases k,
{
    if k <= 0 {
        (0, 0, zero)
    } else {
        let (hits, tested, total) = survey_upto(
            turn,
            sharp,
            gather,
            zero,
            pts,
            closed,
            scales,
            i,
            k - 1,
        );
        match turn_at(turn, pts, closed, i, scales[k - 1] as int) {
            Some(t) => (
                if value1(sharp, t) {
                    hits + 1
                } else {
                    hits
                },
                tested + 1,
                value2(gather, total, t),
            ),
            None => (hits, tested, total),
        }
    }
}

/// The vertices from `lo` to before `hi` that turn sharply at enough scales.
pub open spec fn candidates_upto<
    P,
    T,
    S,
    FT: Fn(P, P, P) -> Option<T>,
    FH: Fn(T) -> bool,
    FG: Fn(S, T) -> S,
>(
    turn: FT,
    sharp: FH,
    gather: FG,
    zero: S,
    pts: Seq<P>,
    closed: bool,
    scales: Seq<usize>,
    persistence: int,
    lo: int,
    hi: int,
) -> Seq<usize>
    decreases hi - lo,
{
    if hi <= lo {
        Seq::empty()
    } else {
        let rest = candidates_upto(
            turn,
            sharp,
            gather,
            zero,
            pts,
            closed,
            scales,
            persistence,
            lo,
            hi - 1,
        );
        let k = scales.len() as int;
        let (hits, tested, total) = survey_upto(
            turn,
            sharp,
            gather,
            zero,
            pts,
            closed,
            scales,
            hi - 1,
            k,
        );
        if persistent(hits, tested, k, persistence) {
            rest.push((hi - 1) as usize)
        } else {
            rest
        }
    }
}

/// How strong each of the candidates `at` is.
pub open spec fn strengths_of<
    P,
    T,
    S,
    FT: Fn(P, P, P) -> Option<T>,
    FH: Fn(T) -> bool,
    FG: Fn(S, T) -> S,
    FK: Fn(S, usize) -> i64,
>(
    turn: FT,
    sharp: FH,
    gather: FG,
    strength: FK,
    zero: S,
    pts: Seq<P>,
    closed: bool,
    scales: Seq<usize>,
    at: Seq<usize>,
) -> Seq<i64> {
    Seq::new(
        at.len(),
        |q: int|
            {
                let (hits, tested, total) = survey_upto(
                    turn,
                    sharp,
                    gather,
                    zero,
                    pts,
                    closed,
                    scales,
                    at[q] as int,
                    scales.len() as int,
                );
                value2(strength, total, tested as usize)
            },
    )
}

/// The bend present at one pixel that has vanished by the coarsest scale, over
/// the vertices from `lo` to before `hi` where both can be measured, and the
/// number of those.
pub open spec fn noise_upto<P, T, E, FT: Fn(P, P, P) -> Option<T>, FJ: Fn(E, T, T) -> E>(
    turn: FT,
    jitter: FJ,
    calm: E,
    pts: Seq<P>,
    closed: bool,
    coarsest: int,
    lo: int,
    hi: int,
) -> (E, int)
    decreases hi - lo,
{
    if hi <= lo {
        (calm, 0)
    } else {
        let (noise, measured) = noise_upto(turn, jitter, calm, pts, closed, coarsest, lo, hi - 1);
        match (turn_at(turn, pts, closed, hi - 1, 1), turn_at(turn, pts, closed, hi - 1, coarsest)) {
            (Some(fine), Some(coarse)) => (value3(jitter, noise, fine, coarse), measured + 1),
            _ => (noise, measured),
        }
    }
}

/// What the multi-scale analysis found on one contour.
pub struct Analysis<E> {
    /// Vertex indices that are hard corners, ascending.
    pub corners: Vec<usize>,
    /// How much of this contour's fine-scale bending is not present at coarse
    /// scale, summed over the vertices where both could be measured. Small for a
    /// cleanly reconstructed edge, large for a raw pixel staircase or heavy
    /// compression noise.
    pub noise: E,
    /// The number of those vertices.
    pub measured: usize,
}

/// The first vertex that can be a corner, and the one past the last: interior
/// vertices only for an open arc, whose endpoints are junctions.
pub open spec fn corner_range(n: int, closed: bool) -> (int, int) {
    if closed {
        (0, n - 1)
    } else {
        (1, n - 1)
    }
}

/// `a` is what analysis finds with neighbourhoods of sizes `scales`.
pub open spec fn is_analysis<
    P,
    T,
    S,
    E,
    FT: Fn(P, P, P) -> Option<T>,
    FH: Fn(T) -> bool,
    FG: Fn(S, T) -> S,
    FK: Fn(S, usize) -> i64,
    FJ: Fn(E, T, T) -> E,
>(
    turn: FT,
    sharp: FH,
    gather: FG,
    strength: FK,
    jitter: FJ,
    zero: S,
    calm: E,
    pts: Seq<P>,
    closed: bool,
    cfg: CornerConfig,
    scales: Seq<usize>,
    a: Analysis<E>,
) -> bool {
    let n = pts.len() as int;
    let (lo, hi) = corner_range(n, closed);
    let at = candidates_upto(
        turn,
        sharp,
        gather,
        zero,
        pts,
        closed,
        scales,
        cfg.persistence as int,
        lo,
        hi,
    );
    &&& are_effective_scales(cfg.scales@, scales)
    &&& (a.noise, a.measured as int) == noise_upto(
        turn,
        jitter,
        calm,
        pts,
        closed,
        scales.last() as int,
        lo,
        hi,
    )
    &&& exists|accepted: Seq<usize>| #[trigger]
        is_suppressed(
            at,
            strengths_of(turn, sharp, gather, strength, zero, pts, closed, scales, at),
            distinct_vertices(n, closed),
            closed,
            cfg.suppress_radius as int,
            accepted,
        ) && are_corners(a.corners@, n, closed, accepted)
}

/// `a` is what analysis finds. A contour of fewer than three distinct vertices is
/// not measured.
pub open spec fn is_contour_analysis<
    P,
    T,
    S,
    E,
    FT: Fn(P, P, P) -> Option<T>,
    FH: Fn(T) -> bool,
    FG: Fn(S, T) -> S,
    FK: Fn(S, usize) -> i64,
    FJ: Fn(E, T, T) -> E,
>(
    turn: FT,
    sharp: FH,
    gather: FG,
    strength: FK,
    jitter: FJ,
    zero: S,
    calm: E,
    pts: Seq<P>,
    closed: bool,
    cfg: CornerConfig,
    a: Analysis<E>,
) -> bool {
    if distinct_vertices(pts.len() as int, closed) < 3 {
        &&& a.noise == calm
        &&& a.measured == 0
        &&& are_corners(a.corners@, pts.len() as int, closed, Seq::empty())
    } else {
        exists|scales: Seq<usize>| #[trigger]
            is_analysis(
                turn,
                sharp,
                gather,
                strength,
                jitter,
                zero,
                calm,
                pts,
                closed,
                cfg,
                scales,
                a,
            )
    }
}

fn survey<
    P: Copy,
    T: Copy,
    S: Copy,
    FT: Fn(P, P, P) -> Option<T>,
    FH: Fn(T) -> bool,
    FG: Fn(S, T) -> S,
>(
    turn: &FT,
    sharp: &FH,
    gather: &FG,
    zero: S,
    pts: &Vec<P>,
    closed: bool,
    scales: &Vec<usize>,
    i: usize,
) -> (r: (usize, usize, S))
    requires
        pure3(*turn),
        pure1(*sharp),
        pure2(*gather),
        i < pts@.len() <= isize::MAX,
        pts@.len() >= 2,
        forall|k: int| 0 <= k < scales@.len() ==> (#[trigger] scales@[k]) <= isize::MAX,
    ensures
        (r.0 as int, r.1 as int, r.2) == survey_upto(
            *turn,
            *sharp,
            *gather,
            zero,
            pts@,
            closed,
            scales@,
            i as int,
            scales@.len() as int,
        ),
        r.0 <= r.1,
{
    let mut hits: usize = 0;
    let mut tested: usize = 0;
    let mut total: S = zero;
    let mut k: usize = 0;
    while k < scales.len()
        invariant
            pure3(*turn),
            pure1(*sharp),
            pure2(*gather),
            i < pts@.len() <= isize::MAX,
            pts@.len() >= 2,
            forall|j: int| 0 <= j < scales@.len() ==> (#[trigger] scales@[j]) <= isize::MAX,
            k <= scales@.len(),
            hits <= tested <= k,
            (hits as int, tested as int, total) == survey_upto(
                *turn,
                *sharp,
                *gather,
                zero,
                pts@,
                closed,
                scales@,
                i as int,
                k as int,
            ),
        decreases scales@.len() - k,
    {
        let s: usize = scales[k];
        assert(scales@[k as int] <= isize::MAX);
        match turn_at_scale(turn, pts, closed, i, s) {
            Some(t) => {
                tested = tested + 1;
                total = call2(gather, total, t);
                if call1(sharp, t) {
                    hits = hits + 1;
                }
            },
            None => {},
        }
        k = k + 1;
    }
    (hits, tested, total)
}

/// Analyse one contour. `closed` marks a loop whose final point repeats its
/// first.
///
/// `turn` measures the angle at the middle one of three points and `sharp`
/// compares it with the threshold; `gather` adds it to a total, which together
/// with the number of terms gives the `strength` of a candidate. `jitter` counts
/// how much of the bend at one pixel has vanished at the coarsest scale.
pub fn analyze_contour<
    P: Copy,
    T: Copy,
    S: Copy,
    E: Copy,
    FT: Fn(P, P, P) -> Option<T>,
    FH: Fn(T) -> bool,
    FG: Fn(S, T) -> S,
    FK: Fn(S, usize) -> i64,
    FJ: Fn(E, T, T) -> E,
>(
    turn: &FT,
    sharp: &FH,
    gather: &FG,
    strength: &FK,
    jitter: &FJ,
    zero: S,
    calm: E,
    pts: &Vec<P>,
    closed: bool,
    cfg: &CornerConfig,
) -> (a: Analysis<E>)
    requires
        pure3(*turn),
        pure1(*sharp),
        pure2(*gather),
        pure2(*strength),
        pure3(*jitter),
        1 <= pts@.len() <= isize::MAX,
        forall|k: int| 0 <= k < cfg.scales@.len() ==> (#[trigger] cfg.scales@[k]) <= isize::MAX,
    ensures
        ascending(a.corners@),
        forall|k: int|
            0 <= k < a.corners@.len() ==> (#[trigger] a.corners@[k]) < distinct_vertices(
                pts@.len() as int,
                closed,
            ),
        is_contour_analysis(
            *turn,
            *sharp,
            *gather,
            *strength,
            *jitter,
            zero,
            calm,
            pts@,
            closed,
            *cfg,
            a,
        ),
{
    let n: usize = pts.len();
    let mut at: Vec<usize> = Vec::new();
    let mut strengths: Vec<i64> = Vec::new();
    let ix = Indexer { n, closed };
    if ix.distinct() < 3 {
        let corners: Vec<usize> = contour_corners(n, closed, &at, &strengths, cfg.suppress_radius);
        return Analysis { corners, noise: calm, measured: 0 };
    }
    let scales: Vec<usize> = effective_scales(&cfg.scales);
    proof {
        lemma_scales_small(cfg.scales@, scales@);
    }
    let coarsest: usize = scales[scales.len() - 1];
    assert(scales@[scales@.len() - 1] <= isize::MAX);
    let mut noise: E = calm;
    let mut measured: usize = 0;
    let lo: usize = if closed {
        0
    } else {
        1
    };
    let mut i: usize = lo;
    proof {
        assert(at@ =~= candidates_upto(
            *turn,
            *sharp,
            *gather,
            zero,
            pts@,
            closed,
            scales@,
            cfg.persistence as int,
            lo as int,
            lo as int,
        ));
        assert(strengths@ =~= strengths_of(
            *turn,
            *sharp,
            *gather,
            *strength,
            zero,
            pts@,
            closed,
            scales@,
            at@,
        ));
    }
    while i < n - 1
        invariant
            pure3(*turn),
            pure1(*sharp),
            pure2(*gather),
            pure2(*strength),
            pure3(*jitter),
            n == pts@.len(),
            3 <= n <= isize::MAX,
            lo <= i <= n - 1,
            measured <= i,
            forall|k: int| 0 <= k < scales@.len() ==> (#[trigger] scales@[k]) <= isize::MAX,
            coarsest <= isize::MAX,
            at@ == candidates_upto(
                *turn,
                *sharp,
                *gather,
                zero,
                pts@,
                closed,
                scales@,
                cfg.persistence as int,
                lo as int,
                i as int,
            ),
            forall|k: int| 0 <= k < at@.len() ==> (#[trigger] at@[k]) < i,
            strengths@ == strengths_of(
                *turn,
                *sharp,
                *gather,
                *strength,
                zero,
                pts@,
                closed,
                scales@,
                at@,
            ),
            (noise, measured as int) == noise_upto(
                *turn,
                *jitter,
                calm,
                pts@,
                closed,
                coarsest as int,
                lo as int,
                i as int,
            ),
        decreases n - i,
    {
        let (hits, tested, total) = survey(turn, sharp, gather, zero, pts, closed, &scales, i);
        if is_persistent(hits, tested, scales.len(), cfg.persistence) {
            let key: i64 = call2(strength, total, tested);
            let ghost before = at@;
            at.push(i);
            strengths.push(key);
            proof {
                assert(strengths@ =~= strengths_of(
                    *turn,
                    *sharp,
                    *gather,
                    *strength,
                    zero,
                    pts@,
                    closed,
                    scales@,
                    at@,
                ));
            }
        }
        // A staircase bends at one pixel and not at the coarsest scale; a
        // genuine corner bends just as much at both.
        let fine: Option<T> = turn_at_scale(turn, pts, closed, i, 1);
        let coarse: Option<T> = turn_at_scale(turn, pts, closed, i, coarsest);
        match (fine, coarse) {
            (Some(f), Some(c)) => {
                noise = call3(jitter, noise, f, c);
                measured = measured + 1;
            },
            _ => {},
        }
        i = i + 1;
    }
    let corners: Vec<usize> = contour_corners(n, closed, &at, &strengths, cfg.suppress_radius);
    let a = Analysis { corners, noise, measured };
    proof {
        let m = distinct_vertices(n as int, closed);
        let radius = cfg.suppress_radius as int;
        let accepted = choose|accepted: Seq<usize>| #[trigger]
            is_suppressed(at@, strengths@, m, closed, radius, accepted) && are_corners(
                a.corners@,
                n as int,
                closed,
                accepted,
            );
        assert(is_suppressed(at@, strengths@, m, closed, radius, accepted));
        assert(are_corners(a.corners@, n as int, closed, accepted));
        assert(corner_range(n as int, closed) == (lo as int, n - 1));
        let (from, to) = corner_range(n as int, closed);
        let candidates = candidates_upto(
            *turn,
            *sharp,
            *gather,
            zero,
            pts@,
            closed,
            scales@,
            cfg.persistence as int,
            from,
            to,
        );
        assert(at@ == candidates);
        assert(is_suppressed(
            candidates,
            strengths_of(*turn, *sharp, *gather, *strength, zero, pts@, closed, scales@, candidates),
            m,
            closed,
            radius,
            accepted,
        ));
    }
    assert(is_analysis(
        *turn,
        *sharp,
        *gather,
        *strength,
        *jitter,
        zero,
        calm,
        pts@,
        closed,
        *cfg,
        scales@,
        a,
    ));
    a
}

/// The effective scales are no larger than the scales.
proof fn lemma_scales_small(scales: Seq<usize>, out: Seq<usize>)
    requires
        are_effective_scales(scales, out),
        forall|k: int| 0 <= k < scales.len() ==> (#[trigger] scales[k]) <= isize::MAX,
    ensures
        forall|k: int| 0 <= k < out.len() ==> (#[trigger] out[k]) <= isize::MAX,
{
    broadcast use vstd::seq_lib::group_to_multiset_ensures;

    let pick = |s: usize| s >= 1;
    let positive = scales.filter(pick);
    assert forall|k: int| 0 <= k < out.len() implies (#[trigger] out[k]) <= isize::MAX by {
        if positive.len() > 0 {
            let v = out[k];
            assert(out.contains(v));
            assert(out.to_multiset().count(v) > 0);
            assert(positive.to_multiset().count(v) > 0);
            assert(positive.contains(v));
            scales.lemma_filter_contains_rev(pick, v);
            let q = choose|q: int| 0 <= q < scales.len() && scales[q] == v;
            assert(scales[q] <= isize::MAX);
        }
    }
}

// ---- Smoothing ----------------------------------------------------------

/// How a contour is smoothed once its corners are known.
pub enum Smoothing {
    /// A closed contour without corners, all the way round.
    Loop,
    /// Each run of points on its own, its two ends held fixed.
    Runs(Vec<Vec<usize>>),
}

/// The points from corner `a` on to corner `b` of a contour of `m` distinct
/// vertices, through the seam where `b` does not come after `a`: from a lone corner
/// all the way round to itself.
pub open spec fn run_between(a: int, b: int, m: int) -> Seq<usize> {
    if b > a {
        Seq::new((b - a + 1) as nat, |k: int| (a + k) as usize)
    } else {
        Seq::new(
            (m - a + b + 1) as nat,
            |k: int|
                if a + k < m {
                    (a + k) as usize
                } else {
                    (a + k - m) as usize
                },
        )
    }
}

/// The corner that follows corner `k`, the first after the last.
pub open spec fn next_corner(corners: Seq<usize>, k: int) -> usize {
    if k + 1 < corners.len() {
        corners[k + 1]
    } else {
        corners[0]
    }
}

pub open spec fn is_smoothing(
    s: Smoothing,
    corners: Seq<usize>,
    n: int,
    closed: bool,
) -> bool {
    match s {
        Smoothing::Loop => closed && corners.len() == 0,
        Smoothing::Runs(runs) => {
            &&& !(closed && corners.len() == 0)
            &&& runs@.len() == (if closed || corners.len() == 0 {
                corners.len() as int
            } else {
                corners.len() - 1
            })
            &&& forall|k: int|
                0 <= k < runs@.len() ==> (#[trigger] runs@[k])@ == run_between(
                    corners[k] as int,
                    next_corner(corners, k) as int,
                    n - 1,
                )
        },
    }
}

fn index_run(a: usize, b: usize, m: usize) -> (run: Vec<usize>)
    requires
        a < b || (a < m && b < m),
    ensures
        run@ == run_between(a as int, b as int, m as int),
{
    let mut run: Vec<usize> = Vec::new();
    let mut k: usize = a;
    run.push(a);
    if b > a {
        while k < b
            invariant
                a <= k <= b,
                run@.len() == k - a + 1,
                forall|j: int| 0 <= j < run@.len() ==> #[trigger] run@[j] == a + j,
            decreases b - k,
        {
            k = k + 1;
            run.push(k);
        }
        assert(run@ =~= run_between(a as int, b as int, m as int));
    } else {
        while k < m - 1
            invariant
                a <= k < m,
                b <= a,
                run@.len() == k - a + 1,
                forall|j: int| 0 <= j < run@.len() ==> #[trigger] run@[j] == a + j,
            decreases m - k,
        {
            k = k + 1;
            run.push(k);
        }
        let mut j: usize = 0;
        run.push(0);
        while j < b
            invariant
                j <= b,
                b <= a < m,
                run@.len() == m - a + j + 1,
                forall|q: int|
                    0 <= q < run@.len() ==> #[trigger] run@[q] == (if a + q < m {
                        a + q
                    } else {
                        a + q - m
                    }),
            decreases b - j,
        {
            j = j + 1;
            run.push(j);
        }
        assert(run@ =~= run_between(a as int, b as int, m as int));
    }
    run
}

/// Which runs of a contour of `n` points to smooth: between consecutive
/// corners, on a closed contour also through the seam, so that corner vertices
/// and junction endpoints never move. A lone corner of a closed contour is followed
/// by itself.
pub fn plan_smoothing(corners: &Vec<usize>, n: usize, closed: bool) -> (s: Smoothing)
    requires
        n >= 1,
        ascending(corners@),
        forall|k: int|
            0 <= k < corners@.len() ==> (#[trigger] corners@[k]) < distinct_vertices(
                n as int,
                closed,
            ),
    ensures
        is_smoothing(s, corners@, n as int, closed),
{
    if closed && corners.len() == 0 {
        return Smoothing::Loop;
    }
    let mut runs: Vec<Vec<usize>> = Vec::new();
    if corners.len() == 0 {
        return Smoothing::Runs(runs);
    }
    let count: usize = if closed {
        corners.len()
    } else {
        corners.len() - 1
    };
    let mut k: usize = 0;
    while k < count
        invariant
            k <= count,
            n >= 1,
            corners@.len() > 0,
            ascending(corners@),
            count == (if closed {
                corners@.len() as int
            } else {
                corners@.len() - 1
            }),
            forall|j: int|
                0 <= j < corners@.len() ==> (#[trigger] corners@[j]) < (if closed {
                    n - 1
                } else {
                    n as int
                }),
            runs@.len() == k,
            forall|j: int|
                0 <= j < k ==> (#[trigger] runs@[j])@ == run_between(
                    corners@[j] as int,
                    next_corner(corners@, j) as int,
                    n - 1,
                ),
        decreases count - k,
    {
        let a: usize = corners[k];
        let b: usize = if k + 1 < corners.len() {
            corners[k + 1]
        } else {
            corners[0]
        };
        if k + 1 < corners.len() {
            assert(corners@[k as int] < corners@[k + 1]);
        }
        runs.push(index_run(a, b, n - 1));
        k = k + 1;
    }
    Smoothing::Runs(runs)
}

// ---- All arcs -----------------------------------------------------------

/// The points of a contour once it is smoothed as hard as its noise asks for.
pub open spec fn denoised<
    P,
    E,
    FX: Fn(P, P, P, bool) -> P,
    FP: Fn(Option<(E, usize)>) -> usize,
>(
    relax: FX,
    effort: FP,
    pts: Seq<P>,
    closed: bool,
    cfg: CornerConfig,
    a: Analysis<E>,
) -> Seq<P> {
    let passes = value1(
        effort,
        if cfg.noise_adaptive {
            Some((a.noise, a.measured))
        } else {
            None
        },
    );
    if passes > 0 {
        contour_smoothed(relax, pts, a.corners@, closed, passes as int)
    } else {
        pts
    }
}

/// Arc `b` is arc `a` with its corners found and its inner points smoothed. A
/// border arc is a straight run along the image edge by construction.
pub open spec fn is_analyzed<
    P,
    T,
    S,
    E,
    FT: Fn(P, P, P) -> Option<T>,
    FH: Fn(T) -> bool,
    FG: Fn(S, T) -> S,
    FK: Fn(S, usize) -> i64,
    FJ: Fn(E, T, T) -> E,
    FX: Fn(P, P, P, bool) -> P,
    FP: Fn(Option<(E, usize)>) -> usize,
>(
    turn: FT,
    sharp: FH,
    gather: FG,
    strength: FK,
    jitter: FJ,
    relax: FX,
    effort: FP,
    zero: S,
    calm: E,
    cfg: CornerConfig,
    a: Arc<P>,
    b: Arc<P>,
) -> bool {
    let n = a.points@.len() as int;
    &&& a.start_node == b.start_node
    &&& a.end_node == b.end_node
    &&& a.left == b.left
    &&& a.right == b.right
    &&& a.loop_arc == b.loop_arc
    &&& a.on_border == b.on_border
    &&& b.points@.len() == n
    &&& if n < 3 {
        b.corners@ == Seq::new(n as nat, |k: int| k as usize)
    } else if a.on_border {
        b.corners@ == seq![0usize, (n - 1) as usize] && same_inside(a.points@, b.points@)
    } else {
        exists|an: Analysis<E>| #[trigger]
            is_contour_analysis(
                turn,
                sharp,
                gather,
                strength,
                jitter,
                zero,
                calm,
                a.points@,
                a.loop_arc,
                cfg,
                an,
            ) && b.corners@ == an.corners@ && same_inside(
                denoised(relax, effort, a.points@, a.loop_arc, cfg, an),
                b.points@,
            )
    }
}

/// The lists agree but for their first and last point.
pub open spec fn same_inside<P>(a: Seq<P>, b: Seq<P>) -> bool {
    forall|k: int| 0 < k < b.len() - 1 ==> #[trigger] b[k] == a[k]
}

/// The corners and the points of one arc, before its ends are put on their
/// nodes.
fn analyze_arc<
    P: Copy,
    T: Copy,
    S: Copy,
    E: Copy,
    FT: Fn(P, P, P) -> Option<T>,
    FH: Fn(T) -> bool,
    FG: Fn(S, T) -> S,
    FK: Fn(S, usize) -> i64,
    FJ: Fn(E, T, T) -> E,
    FX: Fn(P, P, P, bool) -> P,
    FP: Fn(Option<(E, usize)>) -> usize,
>(
    turn: &FT,
    sharp: &FH,
    gather: &FG,
    strength: &FK,
    jitter: &FJ,
    relax: &FX,
    effort: &FP,
    zero: S,
    calm: E,
    arc: &Arc<P>,
    cfg: &CornerConfig,
) -> (r: (Vec<usize>, Vec<P>))
    requires
        pure3(*turn),
        pure1(*sharp),
        pure2(*gather),
        pure2(*strength),
        pure3(*jitter),
        pure4(*relax),
        pure1(*effort),
        arc.points@.len() <= isize::MAX,
        forall|k: int| 0 <= k < cfg.scales@.len() ==> (#[trigger] cfg.scales@[k]) <= isize::MAX,
    ensures
        r.1@.len() == arc.points@.len(),
        arc.points@.len() < 3 ==> r.0@ == Seq::new(arc.points@.len(), |k: int| k as usize),
        arc.points@.len() >= 3 && arc.on_border ==> r.0@ == seq![
            0usize,
            (arc.points@.len() - 1) as usize,
        ] && r.1@ == arc.points@,
        arc.points@.len() >= 3 && !arc.on_border ==> exists|an: Analysis<E>| #[trigger]
            is_contour_analysis(
                *turn,
                *sharp,
                *gather,
                *strength,
                *jitter,
                zero,
                calm,
                arc.points@,
                arc.loop_arc,
                *cfg,
                an,
            ) && r.0@ == an.corners@ && r.1@ == denoised(
                *relax,
                *effort,
                arc.points@,
                arc.loop_arc,
                *cfg,
                an,
            ),
{
    let n: usize = arc.points.len();
    let pts: Vec<P> = copy_points(&arc.points);
    if n < 3 {
        let mut corners: Vec<usize> = Vec::new();
        let mut k: usize = 0;
        while k < n
            invariant
                k <= n,
                corners@ == Seq::new(k as nat, |j: int| j as usize),
            decreases n - k,
        {
            corners.push(k);
            assert(corners@ =~= Seq::new((k + 1) as nat, |j: int| j as usize));
            k = k + 1;
        }
        return (corners, pts);
    }
    if arc.on_border {
        let mut corners: Vec<usize> = Vec::new();
        corners.push(0);
        corners.push(n - 1);
        assert(corners@ =~= seq![0usize, (n - 1) as usize]);
        return (corners, pts);
    }
    let closed: bool = arc.loop_arc;
    let found: Analysis<E> = analyze_contour(
        turn,
        sharp,
        gather,
        strength,
        jitter,
        zero,
        calm,
        &pts,
        closed,
        cfg,
    );
    // With noise adaptation on, a contour that the sub-pixel pass already
    // reconstructed cleanly is left untouched, while a raw staircase gets the
    // full configured strength.
    let noise: Option<(E, usize)> = if cfg.noise_adaptive {
        Some((found.noise, found.measured))
    } else {
        None
    };
    let passes: usize = call1(effort, noise);
    let ghost an = found;
    let out: Vec<P> = if passes > 0 {
        smooth_contour(relax, pts, &found.corners, closed, passes)
    } else {
        pts
    };
    assert(is_contour_analysis(
        *turn,
        *sharp,
        *gather,
        *strength,
        *jitter,
        zero,
        calm,
        arc.points@,
        arc.loop_arc,
        *cfg,
        an,
    ));
    (found.corners, out)
}

/// Detect corners on every arc and apply noise-proportional smoothing between
/// them. Corner vertices and junction endpoints never move.
///
/// `relax` moves a point with regard to its neighbours in one step of the
/// smoothing, and `effort` says how many passes the noise of a contour asks for,
/// or, without it, the settings. The other callbacks are those of
/// [`analyze_contour`].
pub fn analyze<
    P: Copy,
    T: Copy,
    S: Copy,
    E: Copy,
    FT: Fn(P, P, P) -> Option<T>,
    FH: Fn(T) -> bool,
    FG: Fn(S, T) -> S,
    FK: Fn(S, usize) -> i64,
    FJ: Fn(E, T, T) -> E,
    FX: Fn(P, P, P, bool) -> P,
    FP: Fn(Option<(E, usize)>) -> usize,
>(
    turn: &FT,
    sharp: &FH,
    gather: &FG,
    strength: &FK,
    jitter: &FJ,
    relax: &FX,
    effort: &FP,
    zero: S,
    calm: E,
    topo: &mut Topology<P>,
    cfg: &CornerConfig,
)
    requires
        pure3(*turn),
        pure1(*sharp),
        pure2(*gather),
        pure2(*strength),
        pure3(*jitter),
        pure4(*relax),
        pure1(*effort),
        old(topo).has_ends(),
        forall|a: int|
            0 <= a < old(topo).arcs@.len() ==> (#[trigger] old(topo).arcs@[a]).points@.len()
                <= isize::MAX,
        forall|k: int| 0 <= k < cfg.scales@.len() ==> (#[trigger] cfg.scales@[k]) <= isize::MAX,
    ensures
        final(topo).nodes@ == old(topo).nodes@,
        final(topo).region_rings == old(topo).region_rings,
        final(topo).arcs@.len() == old(topo).arcs@.len(),
        final(topo).is_welded(),
        forall|a: int|
            0 <= a < old(topo).arcs@.len() ==> is_analyzed(
                *turn,
                *sharp,
                *gather,
                *strength,
                *jitter,
                *relax,
                *effort,
                zero,
                calm,
                *cfg,
                old(topo).arcs@[a],
                #[trigger] final(topo).arcs@[a],
            ),
{
    let ghost arcs0 = topo.arcs@;
    let mut a: usize = 0;
    while a < topo.arcs.len()
        invariant
            pure3(*turn),
            pure1(*sharp),
            pure2(*gather),
            pure2(*strength),
            pure3(*jitter),
            pure4(*relax),
            pure1(*effort),
            forall|k: int|
                0 <= k < cfg.scales@.len() ==> (#[trigger] cfg.scales@[k]) <= isize::MAX,
            arcs0 == old(topo).arcs@,
            old(topo).has_ends(),
            forall|k: int|
                0 <= k < arcs0.len() ==> (#[trigger] arcs0[k]).points@.len() <= isize::MAX,
            a <= topo.arcs@.len(),
            topo.nodes@ == old(topo).nodes@,
            topo.region_rings == old(topo).region_rings,
            topo.arcs@.len() == arcs0.len(),
            forall|k: int|
                0 <= k < a ==> is_analyzed(
                    *turn,
                    *sharp,
                    *gather,
                    *strength,
                    *jitter,
                    *relax,
                    *effort,
                    zero,
                    calm,
                    *cfg,
                    arcs0[k],
                    #[trigger] topo.arcs@[k],
                ),
            forall|k: int| a <= k < arcs0.len() ==> #[trigger] topo.arcs@[k] == arcs0[k],
        decreases arcs0.len() - a,
    {
        let ghost before = topo.arcs@;
        assert(before[a as int] == arcs0[a as int]);
        assert(arcs0[a as int].points@.len() <= isize::MAX);
        let (corners, pts) = analyze_arc(
            turn,
            sharp,
            gather,
            strength,
            jitter,
            relax,
            effort,
            zero,
            calm,
            &topo.arcs[a],
            cfg,
        );
        topo.arcs[a].points = pts;
        topo.arcs[a].corners = corners;
        proof {
            let done = topo.arcs@[a as int];
            let was = arcs0[a as int];
            if was.points@.len() >= 3 && !was.on_border {
                let an = choose|an: Analysis<E>| #[trigger]
                    is_contour_analysis(
                        *turn,
                        *sharp,
                        *gather,
                        *strength,
                        *jitter,
                        zero,
                        calm,
                        was.points@,
                        was.loop_arc,
                        *cfg,
                        an,
                    ) && done.corners@ == an.corners@ && done.points@ == denoised(
                        *relax,
                        *effort,
                        was.points@,
                        was.loop_arc,
                        *cfg,
                        an,
                    );
                assert(is_contour_analysis(
                    *turn,
                    *sharp,
                    *gather,
                    *strength,
                    *jitter,
                    zero,
                    calm,
                    was.points@,
                    was.loop_arc,
                    *cfg,
                    an,
                ));
            }
            assert(is_analyzed(
                *turn,
                *sharp,
                *gather,
                *strength,
                *jitter,
                *relax,
                *effort,
                zero,
                calm,
                *cfg,
                was,
                done,
            ));
            assert forall|k: int| 0 <= k < a + 1 implies is_analyzed(
                *turn,
                *sharp,
                *gather,
                *strength,
                *jitter,
                *relax,
                *effort,
                zero,
                calm,
                *cfg,
                arcs0[k],
                #[trigger] topo.arcs@[k],
            ) by {
                if k < a {
                    assert(topo.arcs@[k] == before[k]);
                }
            }
        }
        a = a + 1;
    }
    let ghost middle = topo.arcs@;
    proof {
        assert forall|k: int| 0 <= k < middle.len() implies (#[trigger] middle[k]).points@.len()
            >= 2 && middle[k].start_node < topo.nodes@.len() && middle[k].end_node
            < topo.nodes@.len() by {
            assert(old(topo).arcs@[k].points@.len() >= 2);
            assert(is_analyzed(
                *turn,
                *sharp,
                *gather,
                *strength,
                *jitter,
                *relax,
                *effort,
                zero,
                calm,
                *cfg,
                arcs0[k],
                middle[k],
            ));
        }
    }
    // Smoothing may have nudged the first or last vertex of a closed arc.
    topo.weld();
    proof {
        assert forall|k: int| 0 <= k < arcs0.len() implies is_analyzed(
            *turn,
            *sharp,
            *gather,
            *strength,
            *jitter,
            *relax,
            *effort,
            zero,
            calm,
            *cfg,
            arcs0[k],
            #[trigger] topo.arcs@[k],
        ) by {
            let was = arcs0[k];
            let done = topo.arcs@[k];
            assert(same_but_ends(middle[k], done));
            assert(is_analyzed(
                *turn,
                *sharp,
                *gather,
                *strength,
                *jitter,
                *relax,
                *effort,
                zero,
                calm,
                *cfg,
                was,
                middle[k],
            ));
            if was.points@.len() >= 3 && !was.on_border {
                let an = choose|an: Analysis<E>| #[trigger]
                    is_contour_analysis(
                        *turn,
                        *sharp,
                        *gather,
                        *strength,
                        *jitter,
                        zero,
                        calm,
                        was.points@,
                        was.loop_arc,
                        *cfg,
                        an,
                    ) && middle[k].corners@ == an.corners@ && same_inside(
                        denoised(*relax, *effort, was.points@, was.loop_arc, *cfg, an),
                        middle[k].points@,
                    );
                assert(is_contour_analysis(
                    *turn,
                    *sharp,
                    *gather,
                    *strength,
                    *jitter,
                    zero,
                    calm,
                    was.points@,
                    was.loop_arc,
                    *cfg,
                    an,
                ));
                assert(same_inside(
                    denoised(*relax, *effort, was.points@, was.loop_arc, *cfg, an),
                    done.points@,
                )) by {
                    assert forall|j: int| 0 < j < done.points@.len() - 1 implies
                        #[trigger] done.points@[j] == denoised(
                        *relax,
                        *effort,
                        was.points@,
                        was.loop_arc,
                        *cfg,
                        an,
                    )[j] by {
                        assert(done.points@[j] == middle[k].points@[j]);
                    }
                }
            }
        }
    }
}

proof fn lemma_candidates_in_range<
    P,
    T,
    S,
    FT: Fn(P, P, P) -> Option<T>,
    FH: Fn(T) -> bool,
    FG: Fn(S, T) -> S,
>(
    turn: FT,
    sharp: FH,
    gather: FG,
    zero: S,
    pts: Seq<P>,
    closed: bool,
    scales: Seq<usize>,
    persistence: int,
    lo: int,
    hi: int,
)
    requires
        0 <= lo,
        hi <= usize::MAX,
    ensures
        ({
            let at = candidates_upto(
                turn,
                sharp,
                gather,
                zero,
                pts,
                closed,
                scales,
                persistence,
                lo,
                hi,
            );
            forall|q: int| 0 <= q < at.len() ==> (#[trigger] at[q]) < hi
        }),
    decreases hi - lo,
{
    if hi > lo {
        lemma_candidates_in_range(
            turn,
            sharp,
            gather,
            zero,
            pts,
            closed,
            scales,
            persistence,
            lo,
            hi - 1,
        );
        let rest = candidates_upto(
            turn,
            sharp,
            gather,
            zero,
            pts,
            closed,
            scales,
            persistence,
            lo,
            hi - 1,
        );
        let at = candidates_upto(
            turn,
            sharp,
            gather,
            zero,
            pts,
            closed,
            scales,
            persistence,
            lo,
            hi,
        );
        assert forall|q: int| 0 <= q < at.len() implies (#[trigger] at[q]) < hi by {
            if q < rest.len() {
                assert(at[q] == rest[q]);
            }
        }
    }
}

proof fn lemma_accepted_in_range(
    at: Seq<usize>,
    order: Seq<usize>,
    m: int,
    closed: bool,
    radius: int,
    k: int,
)
    requires
        0 <= k <= order.len(),
        forall|q: int| 0 <= q < order.len() ==> (#[trigger] order[q]) < at.len(),
        forall|q: int| 0 <= q < at.len() ==> (#[trigger] at[q]) < m,
    ensures
        ({
            let out = accepted_upto(at, order, m, closed, radius, k);
            forall|q: int| 0 <= q < out.len() ==> (#[trigger] out[q]) < m
        }),
    decreases k,
{
    if k > 0 {
        lemma_accepted_in_range(at, order, m, closed, radius, k - 1);
        assert(order[k - 1] < at.len());
        let rest = accepted_upto(at, order, m, closed, radius, k - 1);
        let out = accepted_upto(at, order, m, closed, radius, k);
        assert forall|q: int| 0 <= q < out.len() implies (#[trigger] out[q]) < m by {
            if q < rest.len() {
                assert(out[q] == rest[q]);
            } else {
                assert(at[order[k - 1] as int] < m);
            }
        }
    }
}

/// What analysis finds is a list of vertices, in order.
proof fn lemma_corners_in_range<
    P,
    T,
    S,
    E,
    FT: Fn(P, P, P) -> Option<T>,
    FH: Fn(T) -> bool,
    FG: Fn(S, T) -> S,
    FK: Fn(S, usize) -> i64,
    FJ: Fn(E, T, T) -> E,
>(
    turn: FT,
    sharp: FH,
    gather: FG,
    strength: FK,
    jitter: FJ,
    zero: S,
    calm: E,
    pts: Seq<P>,
    closed: bool,
    cfg: CornerConfig,
    a: Analysis<E>,
)
    requires
        is_contour_analysis(
            turn,
            sharp,
            gather,
            strength,
            jitter,
            zero,
            calm,
            pts,
            closed,
            cfg,
            a,
        ),
        1 <= pts.len() <= usize::MAX,
    ensures
        ascending(a.corners@),
        forall|k: int|
            0 <= k < a.corners@.len() ==> (#[trigger] a.corners@[k]) < distinct_vertices(
                pts.len() as int,
                closed,
            ),
{
    let n = pts.len() as int;
    let m = distinct_vertices(n, closed);
    let corners = a.corners@;
    if m < 3 {
        assert forall|k: int| 0 <= k < corners.len() implies (#[trigger] corners[k]) < m by {
            assert(corners.contains(corners[k]));
        }
    } else {
        let scales = choose|scales: Seq<usize>| #[trigger]
            is_analysis(
                turn,
                sharp,
                gather,
                strength,
                jitter,
                zero,
                calm,
                pts,
                closed,
                cfg,
                scales,
                a,
            );
        let (lo, hi) = corner_range(n, closed);
        let at = candidates_upto(
            turn,
            sharp,
            gather,
            zero,
            pts,
            closed,
            scales,
            cfg.persistence as int,
            lo,
            hi,
        );
        let strengths = strengths_of(
            turn,
            sharp,
            gather,
            strength,
            zero,
            pts,
            closed,
            scales,
            at,
        );
        let radius = cfg.suppress_radius as int;
        let accepted = choose|accepted: Seq<usize>| #[trigger]
            is_suppressed(at, strengths, m, closed, radius, accepted) && are_corners(
                corners,
                n,
                closed,
                accepted,
            );
        assert(is_suppressed(at, strengths, m, closed, radius, accepted));
        let order = choose|order: Seq<usize>| #[trigger]
            is_stable_order(strength_keys(strengths), order) && accepted == accepted_upto(
                at,
                order,
                m,
                closed,
                radius,
                order.len() as int,
            );
        assert(is_stable_order(strength_keys(strengths), order));
        lemma_candidates_in_range(
            turn,
            sharp,
            gather,
            zero,
            pts,
            closed,
            scales,
            cfg.persistence as int,
            lo,
            hi,
        );
        lemma_accepted_in_range(at, order, m, closed, radius, order.len() as int);
        assert forall|k: int| 0 <= k < corners.len() implies (#[trigger] corners[k]) < m by {
            let c = corners[k];
            assert(corners.contains(c));
            if accepted.contains(c) {
                let q = choose|q: int| 0 <= q < accepted.len() && accepted[q] == c;
                assert(accepted[q] < m);
            }
        }
    }
}

proof fn lemma_ascending_reaches(s: Seq<usize>, k: int)
    requires
        ascending(s),
        0 <= k < s.len(),
    ensures
        k <= s[k],
    decreases k,
{
    if k > 0 {
        lemma_ascending_reaches(s, k - 1);
        assert(s[k - 1] < s[k]);
    }
}

/// The corners of an arc are vertices of it, each listed once, from its start on.
pub proof fn law_corners_are_vertices<
    P,
    T,
    S,
    E,
    FT: Fn(P, P, P) -> Option<T>,
    FH: Fn(T) -> bool,
    FG: Fn(S, T) -> S,
    FK: Fn(S, usize) -> i64,
    FJ: Fn(E, T, T) -> E,
    FX: Fn(P, P, P, bool) -> P,
    FP: Fn(Option<(E, usize)>) -> usize,
>(
    turn: FT,
    sharp: FH,
    gather: FG,
    strength: FK,
    jitter: FJ,
    relax: FX,
    effort: FP,
    zero: S,
    calm: E,
    cfg: CornerConfig,
    a: Arc<P>,
    b: Arc<P>,
)
    requires
        is_analyzed(
            turn,
            sharp,
            gather,
            strength,
            jitter,
            relax,
            effort,
            zero,
            calm,
            cfg,
            a,
            b,
        ),
        a.points@.len() <= usize::MAX,
    ensures
        ascending(b.corners@),
        forall|k: int|
            0 <= k < b.corners@.len() ==> (#[trigger] b.corners@[k]) < b.points@.len(),
        b.corners@.len() <= b.points@.len(),
{
    let n = a.points@.len() as int;
    if n >= 3 && !a.on_border {
        let an = choose|an: Analysis<E>| #[trigger]
            is_contour_analysis(
                turn,
                sharp,
                gather,
                strength,
                jitter,
                zero,
                calm,
                a.points@,
                a.loop_arc,
                cfg,
                an,
            ) && b.corners@ == an.corners@ && same_inside(
                denoised(relax, effort, a.points@, a.loop_arc, cfg, an),
                b.points@,
            );
        assert(is_contour_analysis(
            turn,
            sharp,
            gather,
            strength,
            jitter,
            zero,
            calm,
            a.points@,
            a.loop_arc,
            cfg,
            an,
        ));
        lemma_corners_in_range(
            turn,
            sharp,
            gather,
            strength,
            jitter,
            zero,
            calm,
            a.points@,
            a.loop_arc,
            cfg,
            an,
        );
    }
    if b.corners@.len() > 0 {
        lemma_ascending_reaches(b.corners@, b.corners@.len() - 1);
    }
}

/// Analysis moves no corner: every vertex that it lists is where it was, but for
/// the ends, which are on their nodes.
pub proof fn law_analysis_moves_no_corner<
    P,
    T,
    S,
    E,
    FT: Fn(P, P, P) -> Option<T>,
    FH: Fn(T) -> bool,
    FG: Fn(S, T) -> S,
    FK: Fn(S, usize) -> i64,
    FJ: Fn(E, T, T) -> E,
    FX: Fn(P, P, P, bool) -> P,
    FP: Fn(Option<(E, usize)>) -> usize,
>(
    turn: FT,
    sharp: FH,
    gather: FG,
    strength: FK,
    jitter: FJ,
    relax: FX,
    effort: FP,
    zero: S,
    calm: E,
    cfg: CornerConfig,
    a: Arc<P>,
    b: Arc<P>,
    c: int,
)
    requires
        is_analyzed(
            turn,
            sharp,
            gather,
            strength,
            jitter,
            relax,
            effort,
            zero,
            calm,
            cfg,
            a,
            b,
        ),
        a.points@.len() <= usize::MAX,
        0 <= c < b.corners@.len(),
        0 < b.corners@[c] < a.points@.len() - 1,
    ensures
        b.points@[b.corners@[c] as int] == a.points@[b.corners@[c] as int],
{
    let n = a.points@.len() as int;
    let v = b.corners@[c] as int;
    if n >= 3 && !a.on_border {
        let an = choose|an: Analysis<E>| #[trigger]
            is_contour_analysis(
                turn,
                sharp,
                gather,
                strength,
                jitter,
                zero,
                calm,
                a.points@,
                a.loop_arc,
                cfg,
                an,
            ) && b.corners@ == an.corners@ && same_inside(
                denoised(relax, effort, a.points@, a.loop_arc, cfg, an),
                b.points@,
            );
        assert(is_contour_analysis(
            turn,
            sharp,
            gather,
            strength,
            jitter,
            zero,
            calm,
            a.points@,
            a.loop_arc,
            cfg,
            an,
        ));
        lemma_corners_in_range(
            turn,
            sharp,
            gather,
            strength,
            jitter,
            zero,
            calm,
            a.points@,
            a.loop_arc,
            cfg,
            an,
        );
        let passes = value1(
            effort,
            if cfg.noise_adaptive {
                Some((an.noise, an.measured))
            } else {
                None
            },
        );
        law_corners_never_move(relax, a.points@, an.corners@, a.loop_arc, passes as int, c);
        assert(b.points@[v] == denoised(relax, effort, a.points@, a.loop_arc, cfg, an)[v]);
    } else if n >= 3 {
        assert(b.points@[v] == a.points@[v]);
    }
}

} // verus!
