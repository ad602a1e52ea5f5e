//! The colours that a sample of pixels clusters around: k-means with its seeding,
//! and median cut.

use crate::cluster::{is_cutting, is_partition, is_run, kmeans, median_cut, AxisKeys, Rounds};
use crate::pure::{call1, call2, call3, pure1, pure2, pure3, value1, value2, value3};
use crate::quantize::{rng_output, rng_step, Rng};
use vstd::prelude::*;

verus! {

/// How far point `i` is from the nearest of the first `k` chosen points.
pub open spec fn nearest_gap<X, L, D: Fn(X, L) -> u32>(
    dist: D,
    pts: Seq<X>,
    labs: Seq<L>,
    chosen: Seq<usize>,
    i: int,
    k: int,
) -> u32
    decreases k,
{
    if k <= 1 {
        value2(dist, pts[i], labs[chosen[0] as int])
    } else {
        let before = nearest_gap(dist, pts, labs, chosen, i, k - 1);
        let gap = value2(dist, pts[i], labs[chosen[k - 1] as int]);
        if gap < before {
            gap
        } else {
            before
        }
    }
}

pub open spec fn nearest_gaps<X, L, D: Fn(X, L) -> u32>(
    dist: D,
    pts: Seq<X>,
    labs: Seq<L>,
    chosen: Seq<usize>,
) -> Seq<u32> {
    Seq::new(labs.len(), |i: int| nearest_gap(dist, pts, labs, chosen, i, chosen.len() as int))
}

/// What the first `k` points weigh together: each by its distance.
pub open spec fn mass_upto<X, T, W: Fn(T, u32, X) -> T>(
    weigh: W,
    none: T,
    pts: Seq<X>,
    gaps: Seq<u32>,
    k: int,
) -> T
    decreases k,
{
    if k <= 0 {
        none
    } else {
        value3(weigh, mass_upto(weigh, none, pts, gaps, k - 1), gaps[k - 1], pts[k - 1])
    }
}

/// The first point from `i` on at which `left` is spent, or the last one.
pub open spec fn spent_at<X, T, S: Fn(T, u32, X) -> T, E: Fn(T) -> bool>(
    spend: S,
    spent: E,
    pts: Seq<X>,
    gaps: Seq<u32>,
    left: T,
    i: int,
) -> int
    decreases gaps.len() - i,
{
    if i >= gaps.len() {
        gaps.len() - 1
    } else {
        let rest = value3(spend, left, gaps[i], pts[i]);
        if value1(spent, rest) {
            i
        } else {
            spent_at(spend, spent, pts, gaps, rest, i + 1)
        }
    }
}

/// The chosen points, and the generator's state, once up to `k` are chosen: each
/// further one at random, the likelier the farther it is from those before it.
/// Where what is left weighs too little, no more are chosen.
pub open spec fn grown<
    X,
    L,
    T,
    D: Fn(X, L) -> u32,
    W: Fn(T, u32, X) -> T,
    H: Fn(T) -> bool,
    A: Fn(T, u64) -> T,
    S: Fn(T, u32, X) -> T,
    E: Fn(T) -> bool,
>(
    dist: D,
    weigh: W,
    heavy: H,
    aim: A,
    spend: S,
    spent: E,
    none: T,
    pts: Seq<X>,
    labs: Seq<L>,
    chosen: Seq<usize>,
    state: u64,
    k: int,
) -> (Seq<usize>, u64)
    decreases k - chosen.len(),
{
    let gaps = nearest_gaps(dist, pts, labs, chosen);
    let mass = mass_upto(weigh, none, pts, gaps, labs.len() as int);
    if chosen.len() >= k || !value1(heavy, mass) {
        (chosen, state)
    } else {
        let next = rng_step(state);
        let left = value2(aim, mass, rng_output(next));
        let c = spent_at(spend, spent, pts, gaps, left, 0) as usize;
        grown(dist, weigh, heavy, aim, spend, spent, none, pts, labs, chosen.push(c), next, k)
    }
}

/// The seeds, and the generator's state after choosing them: the first one at
/// random, the others as [`grown`] says.
pub open spec fn seeds<
    X,
    L,
    T,
    D: Fn(X, L) -> u32,
    W: Fn(T, u32, X) -> T,
    H: Fn(T) -> bool,
    A: Fn(T, u64) -> T,
    S: Fn(T, u32, X) -> T,
    E: Fn(T) -> bool,
>(
    dist: D,
    weigh: W,
    heavy: H,
    aim: A,
    spend: S,
    spent: E,
    none: T,
    pts: Seq<X>,
    labs: Seq<L>,
    k: int,
    state: u64,
) -> (Seq<usize>, u64) {
    let next = rng_step(state);
    let first = (rng_output(next) % (labs.len() as u64)) as usize;
    grown(dist, weigh, heavy, aim, spend, spent, none, pts, labs, seq![first], next, k)
}

proof fn lemma_gap_prefix<X, L, D: Fn(X, L) -> u32>(
    dist: D,
    pts: Seq<X>,
    labs: Seq<L>,
    chosen: Seq<usize>,
    c: usize,
    i: int,
    k: int,
)
    requires
        1 <= k <= chosen.len(),
    ensures
        nearest_gap(dist, pts, labs, chosen.push(c), i, k) == nearest_gap(dist, pts, labs, chosen, i, k),
    decreases k,
{
    if k > 1 {
        lemma_gap_prefix(dist, pts, labs, chosen, c, i, k - 1);
        assert(chosen.push(c)[k - 1] == chosen[k - 1]);
    } else {
        assert(chosen.push(c)[0] == chosen[0]);
    }
}

fn choose_point<
    X: Copy,
    T: Copy,
    S: Fn(T, u32, X) -> T,
    E: Fn(T) -> bool,
>(spend: &S, spent: &E, pts: &Vec<X>, gaps: &Vec<u32>, left: T) -> (c: usize)
    requires
        pure3(*spend),
        pure1(*spent),
        pts@.len() == gaps@.len(),
        gaps@.len() > 0,
    ensures
        c == spent_at(*spend, *spent, pts@, gaps@, left, 0),
        c < gaps@.len(),
{
    let n: usize = gaps.len();
    let mut rest: T = left;
    let mut i: usize = 0;
    while i < n
        invariant
            pure3(*spend),
            pure1(*spent),
            i <= n,
            n == gaps@.len(),
            n == pts@.len(),
            spent_at(*spend, *spent, pts@, gaps@, rest, i as int) == spent_at(
                *spend,
                *spent,
                pts@,
                gaps@,
                left,
                0,
            ),
        decreases n - i,
    {
        rest = call3(spend, rest, gaps[i], pts[i]);
        if call1(spent, rest) {
            return i;
        }
        i = i + 1;
    }
    n - 1
}

fn weigh_all<X: Copy, T: Copy, W: Fn(T, u32, X) -> T>(
    weigh: &W,
    none: T,
    pts: &Vec<X>,
    gaps: &Vec<u32>,
) -> (mass: T)
    requires
        pure3(*weigh),
        pts@.len() == gaps@.len(),
    ensures
        mass == mass_upto(*weigh, none, pts@, gaps@, gaps@.len() as int),
{
    let mut mass: T = none;
    let mut i: usize = 0;
    while i < gaps.len()
        invariant
            pure3(*weigh),
            pts@.len() == gaps@.len(),
            i <= gaps@.len(),
            mass == mass_upto(*weigh, none, pts@, gaps@, i as int),
        decreases gaps@.len() - i,
    {
        mass = call3(weigh, mass, gaps[i], pts[i]);
        i = i + 1;
    }
    mass
}

/// k-means++ seeding, weighted: the probability of picking a point as the next
/// centre scales with its weight and its squared distance to the nearest centre
/// so far. `weigh` adds a point to a mass, `heavy` tells whether a mass is worth
/// choosing from, `aim` turns a random number into a share of it, and `spend`
/// takes a point off that share until it is `spent`. Returns the indices of at
/// most `k` of the points, the first of them chosen at random.
pub fn seed_centres<
    X: Copy,
    L: Copy,
    T: Copy,
    D: Fn(X, L) -> u32,
    W: Fn(T, u32, X) -> T,
    H: Fn(T) -> bool,
    A: Fn(T, u64) -> T,
    S: Fn(T, u32, X) -> T,
    E: Fn(T) -> bool,
>(
    dist: &D,
    weigh: &W,
    heavy: &H,
    aim: &A,
    spend: &S,
    spent: &E,
    none: T,
    pts: &Vec<X>,
    labs: &Vec<L>,
    k: usize,
    rng: &mut Rng,
) -> (chosen: Vec<usize>)
    requires
        pure2(*dist),
        pure3(*weigh),
        pure1(*heavy),
        pure2(*aim),
        pure3(*spend),
        pure1(*spent),
        pts@.len() == labs@.len(),
        labs@.len() > 0,
    ensures
        (chosen@, final(rng).state()) == seeds(
            *dist,
            *weigh,
            *heavy,
            *aim,
            *spend,
            *spent,
            none,
            pts@,
            labs@,
            k as int,
            old(rng).state(),
        ),
        0 < chosen@.len(),
        chosen@.len() <= k || chosen@.len() == 1,
        forall|j: int| 0 <= j < chosen@.len() ==> (#[trigger] chosen@[j]) < labs@.len(),
{
    let n: usize = labs.len();
    let first: usize = rng.below(n);
    let mut chosen: Vec<usize> = Vec::new();
    chosen.push(first);
    assert(chosen@ =~= seq![first]);
    let mut gaps: Vec<u32> = Vec::new();
    let mut i: usize = 0;
    while i < n
        invariant
            pure2(*dist),
            i <= n,
            n == labs@.len(),
            pts@.len() == n,
            first < n,
            chosen@ == seq![first],
            gaps@.len() == i,
            forall|j: int|
                0 <= j < i ==> #[trigger] gaps@[j] == nearest_gap(*dist, pts@, labs@, chosen@, j, 1),
        decreases n - i,
    {
        gaps.push(call2(dist, pts[i], labs[first]));
        i = i + 1;
    }
    assert(gaps@ =~= nearest_gaps(*dist, pts@, labs@, chosen@));
    let ghost whole = grown(
        *dist,
        *weigh,
        *heavy,
        *aim,
        *spend,
        *spent,
        none,
        pts@,
        labs@,
        chosen@,
        rng.state(),
        k as int,
    );
    let mut more: bool = true;
    while more && chosen.len() < k
        invariant
            pure2(*dist),
            pure3(*weigh),
            pure1(*heavy),
            pure2(*aim),
            pure3(*spend),
            pure1(*spent),
            n == labs@.len(),
            pts@.len() == n,
            n > 0,
            0 < chosen@.len(),
            chosen@.len() <= k || chosen@.len() == 1,
            forall|j: int| 0 <= j < chosen@.len() ==> (#[trigger] chosen@[j]) < n,
            gaps@ == nearest_gaps(*dist, pts@, labs@, chosen@),
            more ==> whole == grown(
                *dist,
                *weigh,
                *heavy,
                *aim,
                *spend,
                *spent,
                none,
                pts@,
                labs@,
                chosen@,
                rng.state(),
                k as int,
            ),
            !more ==> whole == (chosen@, rng.state()),
        decreases
            k - chosen@.len(),
            if more {
                1int
            } else {
                0int
            },
    {
        let mass: T = weigh_all(weigh, none, pts, &gaps);
        if call1(heavy, mass) {
            let left: T = call2(aim, mass, rng.next_u64());
            let c: usize = choose_point(spend, spent, pts, &gaps, left);
            let ghost before = chosen@;
            let ghost old_gaps = gaps@;
            chosen.push(c);
            let mut i: usize = 0;
            while i < n
                invariant
                    pure2(*dist),
                    i <= n,
                    n == labs@.len(),
                    pts@.len() == n,
                    c < n,
                    before.len() > 0,
                    chosen@ == before.push(c),
                    old_gaps == nearest_gaps(*dist, pts@, labs@, before),
                    gaps@.len() == n,
                    forall|j: int|
                        0 <= j < i ==> #[trigger] gaps@[j] == nearest_gap(
                            *dist,
                            pts@,
                            labs@,
                            chosen@,
                            j,
                            chosen@.len() as int,
                        ),
                    forall|j: int| i <= j < n ==> #[trigger] gaps@[j] == old_gaps[j],
                decreases n - i,
            {
                let gap: u32 = call2(dist, pts[i], labs[c]);
                proof {
                    lemma_gap_prefix(*dist, pts@, labs@, before, c, i as int, before.len() as int);
                    assert(gaps@[i as int] == old_gaps[i as int]);
                }
                if gap < gaps[i] {
                    gaps.set(i, gap);
                }
                i = i + 1;
            }
            assert(gaps@ =~= nearest_gaps(*dist, pts@, labs@, chosen@));
        } else {
            more = false;
        }
    }
    chosen
}

/// The smaller number.
pub open spec fn fewer(a: int, b: int) -> int {
    if a < b {
        a
    } else {
        b
    }
}

/// The points that `chosen` lists.
pub open spec fn points_at<L>(labs: Seq<L>, chosen: Seq<usize>) -> Seq<L> {
    Seq::new(chosen.len(), |j: int| labs[chosen[j] as int])
}

/// A run of k-means from `start` ends with `centres`.
pub open spec fn is_outcome<
    X,
    L,
    B,
    D: Fn(X, L) -> u32,
    F: Fn(B, X) -> B,
    M: Fn(B) -> Option<L>,
>(
    pts: Seq<X>,
    start: Seq<L>,
    limit: int,
    dist: D,
    zero: B,
    plus: F,
    finish: M,
    centres: Seq<L>,
) -> bool {
    exists|run: Rounds<L>| #[trigger]
        is_run(run, pts, start, limit, dist, zero, plus, finish) && run.centres.last() == centres
}

/// Weighted k-means over the points, which are at `labs`, with k-means++ seeding, towards `k` centres, but
/// no more than there are points.
pub fn kmeans_palette<
    X: Copy,
    L: Copy,
    T: Copy,
    B: Copy,
    D: Fn(X, L) -> u32,
    W: Fn(T, u32, X) -> T,
    H: Fn(T) -> bool,
    A: Fn(T, u64) -> T,
    S: Fn(T, u32, X) -> T,
    E: Fn(T) -> bool,
    F: Fn(B, X) -> B,
    M: Fn(B) -> Option<L>,
>(
    dist: &D,
    weigh: &W,
    heavy: &H,
    aim: &A,
    spend: &S,
    spent: &E,
    none: T,
    zero: B,
    plus: &F,
    finish: &M,
    pts: &Vec<X>,
    labs: &Vec<L>,
    k: usize,
    iterations: usize,
    rng: &mut Rng,
) -> (centres: Vec<L>)
    requires
        pure2(*dist),
        pure3(*weigh),
        pure1(*heavy),
        pure2(*aim),
        pure3(*spend),
        pure1(*spent),
        pure2(*plus),
        pure1(*finish),
        k <= u32::MAX || labs@.len() <= u32::MAX,
        pts@.len() == labs@.len(),
    ensures
        labs@.len() == 0 ==> centres@.len() == 0 && final(rng).state() == old(rng).state(),
        labs@.len() > 0 ==> {
            let picks = seeds(
                *dist,
                *weigh,
                *heavy,
                *aim,
                *spend,
                *spent,
                none,
                pts@,
                labs@,
                fewer(k as int, labs@.len() as int),
                old(rng).state(),
            );
            &&& final(rng).state() == picks.1
            &&& centres@.len() == picks.0.len()
            &&& 1 <= centres@.len() <= if k == 0 {
                1
            } else {
                k as int
            }
            &&& is_outcome(
                pts@,
                points_at(labs@, picks.0),
                iterations as int,
                *dist,
                zero,
                *plus,
                *finish,
                centres@,
            )
        },
{
    let n: usize = labs.len();
    if n == 0 {
        return Vec::new();
    }
    let want: usize = if k < n {
        k
    } else {
        n
    };
    let chosen: Vec<usize> = seed_centres(
        dist,
        weigh,
        heavy,
        aim,
        spend,
        spent,
        none,
        pts,
        labs,
        want,
        rng,
    );
    let mut start: Vec<L> = Vec::new();
    let mut j: usize = 0;
    assert(start@ =~= points_at(labs@, chosen@.take(0)));
    while j < chosen.len()
        invariant
            j <= chosen@.len(),
            forall|q: int| 0 <= q < chosen@.len() ==> (#[trigger] chosen@[q]) < labs@.len(),
            start@ == points_at(labs@, chosen@.take(j as int)),
        decreases chosen@.len() - j,
    {
        assert(chosen@[j as int] < labs@.len());
        start.push(labs[chosen[j]]);
        assert(start@ =~= points_at(labs@, chosen@.take(j + 1)));
        j = j + 1;
    }
    assert(chosen@.take(j as int) =~= chosen@);
    assert(want == fewer(k as int, labs@.len() as int));
    let ghost from = start@;
    let centres: Vec<L> = kmeans(pts, start, iterations, dist, zero, plus, finish);
    assert(is_outcome(pts@, from, iterations as int, *dist, zero, *plus, *finish, centres@));
    assert(from == points_at(labs@, chosen@));
    centres
}

// ---- Median cut ---------------------------------------------------------

/// The first `k` members of a box, summed up.
pub open spec fn box_sum<X, B, F: Fn(B, X) -> B>(
    plus: F,
    zero: B,
    pts: Seq<X>,
    members: Seq<usize>,
    k: int,
) -> B
    decreases k,
{
    if k <= 0 {
        zero
    } else {
        value2(plus, box_sum(plus, zero, pts, members, k - 1), pts[members[k - 1] as int])
    }
}

/// The colour of each box.
pub open spec fn box_colors<X, L, B, F: Fn(B, X) -> B, M: Fn(B) -> L>(
    plus: F,
    finish: M,
    zero: B,
    pts: Seq<X>,
    boxes: Seq<Vec<usize>>,
) -> Seq<L> {
    Seq::new(
        boxes.len(),
        |b: int| value1(finish, box_sum(plus, zero, pts, boxes[b]@, boxes[b]@.len() as int)),
    )
}

/// A run of median cut down to `k` boxes ends with boxes of these colours.
pub open spec fn is_cut_palette<
    X,
    L,
    B,
    G: Fn(usize, AxisKeys, AxisKeys) -> u32,
    F: Fn(B, X) -> B,
    M: Fn(B) -> L,
>(
    pts: Seq<X>,
    keys: Seq<AxisKeys>,
    gap: G,
    plus: F,
    finish: M,
    zero: B,
    k: int,
    floor: u32,
    colors: Seq<L>,
) -> bool {
    exists|states: Seq<Seq<Vec<usize>>>| #[trigger]
        is_cutting(keys, gap, states, k, floor) && colors == box_colors(
            plus,
            finish,
            zero,
            pts,
            states.last(),
        )
}

/// Median cut over a sample, towards `k` colours: `plus` adds a sample to the sum
/// of its box, and `finish` makes a colour of a sum. The other arguments are those
/// of [`median_cut`].
pub fn median_cut_palette<
    X: Copy,
    L: Copy,
    B: Copy,
    G: Fn(usize, AxisKeys, AxisKeys) -> u32,
    F: Fn(B, X) -> B,
    M: Fn(B) -> L,
>(
    pts: &Vec<X>,
    keys: &Vec<AxisKeys>,
    gap: &G,
    plus: &F,
    finish: &M,
    zero: B,
    k: usize,
    floor: u32,
) -> (colors: Vec<L>)
    requires
        pure3(*gap),
        pure2(*plus),
        pure1(*finish),
        pts@.len() == keys@.len(),
    ensures
        keys@.len() == 0 ==> colors@.len() == 0,
        keys@.len() > 0 ==> is_cut_palette(
            pts@,
            keys@,
            *gap,
            *plus,
            *finish,
            zero,
            k as int,
            floor,
            colors@,
        ),
        keys@.len() > 0 ==> 1 <= colors@.len() <= if k == 0 {
            1
        } else {
            k as int
        },
{
    let boxes: Vec<Vec<usize>> = median_cut(keys, k, floor, gap);
    let mut colors: Vec<L> = Vec::new();
    let mut b: usize = 0;
    while b < boxes.len()
        invariant
            pure2(*plus),
            pure1(*finish),
            b <= boxes@.len(),
            boxes@.len() > 0 ==> is_partition(boxes@, pts@.len() as int),
            colors@.len() == b,
            forall|j: int|
                0 <= j < b ==> #[trigger] colors@[j] == box_colors(
                    *plus,
                    *finish,
                    zero,
                    pts@,
                    boxes@,
                )[j],
        decreases boxes@.len() - b,
    {
        let members: &Vec<usize> = &boxes[b];
        let mut sum: B = zero;
        let mut i: usize = 0;
        assert forall|m: int| 0 <= m < members@.len() implies #[trigger] members@[m]
            < pts@.len() by {
            assert(boxes@[b as int]@[m] < pts@.len());
        }
        while i < members.len()
            invariant
                pure2(*plus),
                i <= members@.len(),
                forall|m: int| 0 <= m < members@.len() ==> #[trigger] members@[m] < pts@.len(),
                sum == box_sum(*plus, zero, pts@, members@, i as int),
            decreases members@.len() - i,
        {
            sum = call2(plus, sum, pts[members[i]]);
            i = i + 1;
        }
        colors.push(call1(finish, sum));
        b = b + 1;
    }
    assert(colors@ =~= box_colors(*plus, *finish, zero, pts@, boxes@));
    colors
}

} // verus!
