//! Absorbing specks: regions too small to be worth tracing.

use crate::components::{connected_components, first_pixel, is_components, numbered_in_order};
use crate::cracks::one_if;
use crate::order::{is_stable_order, sorts_before, stable_order, Rank};
use vstd::prelude::*;

verus! {

/// How many of the four neighbours of pixel `p` belong to region `o`.
pub open spec fn pixel_contacts(regions: Seq<u32>, w: int, p: int, o: u32) -> int {
    one_if(p > 0 && p % w != 0 && regions[p - 1] == o) + one_if(
        (p + 1) % w != 0 && regions[p + 1] == o,
    ) + one_if(p >= w && regions[p - w] == o) + one_if(
        p + w < regions.len() && regions[p + w] == o,
    )
}

/// Pixel sides between regions `r` and `o`, counted over the first `m` pixels.
pub open spec fn border_upto(regions: Seq<u32>, w: int, r: u32, o: u32, m: int) -> int
    decreases m,
{
    if m <= 0 {
        0
    } else {
        border_upto(regions, w, r, o, m - 1) + if regions[m - 1] == r {
            pixel_contacts(regions, w, m - 1, o)
        } else {
            0
        }
    }
}

/// Length of the border that region `r` shares with region `o`.
pub open spec fn shared_border(regions: Seq<u32>, w: int, r: u32, o: u32) -> int {
    border_upto(regions, w, r, o, regions.len() as int)
}

/// How the specks of one labelling are absorbed.
pub ghost struct Merge {
    pub regions: Seq<u32>,
    pub region_label: Seq<u32>,
    pub region_area: Seq<u32>,
    /// The small regions in the order in which they are absorbed.
    pub order: Seq<u32>,
    /// The region that each of them is absorbed into, if it has a neighbour.
    pub targets: Seq<Option<u32>>,
}

impl Merge {
    /// `t` is a neighbour of `r` with which it shares the most border, and among
    /// those one with the largest area.
    pub open spec fn is_best_target(self, w: int, r: u32, t: u32) -> bool {
        &&& t != r
        &&& t < self.region_area.len()
        &&& shared_border(self.regions, w, r, t) > 0
        &&& forall|o: u32|
            o != r && #[trigger] shared_border(self.regions, w, r, o) > 0 ==> shared_border(
                self.regions,
                w,
                r,
                o,
            ) < shared_border(self.regions, w, r, t) || (shared_border(self.regions, w, r, o)
                == shared_border(self.regions, w, r, t) && self.region_area[o as int]
                <= self.region_area[t as int])
    }

    pub open spec fn has_no_neighbour(self, w: int, r: u32) -> bool {
        forall|o: u32| o != r ==> #[trigger] shared_border(self.regions, w, r, o) == 0
    }

    /// The small regions, smallest first, equal ones by number.
    pub open spec fn order_ok(self, min_area: u32) -> bool {
        &&& forall|k: int|
            0 <= k < self.order.len() ==> (#[trigger] self.order[k]) < self.region_area.len()
                && self.region_area[self.order[k] as int] < min_area
        &&& forall|r: u32|
            r < self.region_area.len() && #[trigger] self.region_area[r as int] < min_area
                ==> self.order.contains(r)
        &&& forall|k: int, l: int|
            0 <= k < l < self.order.len() ==> {
                let a = #[trigger] self.order[k];
                let b = #[trigger] self.order[l];
                self.region_area[a as int] < self.region_area[b as int] || (
                self.region_area[a as int] == self.region_area[b as int] && a < b)
            }
    }

    pub open spec fn targets_ok(self, w: int) -> bool {
        &&& self.targets.len() == self.order.len()
        &&& forall|k: int|
            0 <= k < self.order.len() ==> match #[trigger] self.targets[k] {
                Some(t) => self.is_best_target(w, self.order[k], t),
                None => self.has_no_neighbour(w, self.order[k]),
            }
    }

    /// The label of each region once the first `k` small regions are absorbed:
    /// each takes the label that its target has by then.
    pub open spec fn settled(self, k: int) -> Seq<u32>
        decreases k,
    {
        if k <= 0 {
            self.region_label
        } else {
            let c = self.settled(k - 1);
            match self.targets[k - 1] {
                Some(t) => c.update(self.order[k - 1] as int, c[t as int]),
                None => c,
            }
        }
    }

    pub open spec fn absorbs(
        self,
        labels: Seq<u32>,
        w: int,
        min_area: u32,
        result: Seq<u32>,
    ) -> bool {
        &&& is_components(labels, w, self.regions, self.region_label, self.region_area)
        &&& self.order_ok(min_area)
        &&& self.targets_ok(w)
        &&& result.len() == labels.len()
        &&& forall|p: int|
            0 <= p < labels.len() ==> #[trigger] result[p] == self.settled(
                self.order.len() as int,
            )[self.regions[p] as int]
    }
}

/// `result` is `labels` with every region below `min_area` absorbed, smallest
/// first, into the neighbour it shares the most border with, the larger one
/// where two share as much. Which of two equally good neighbours wins is open.
pub open spec fn despeckled(labels: Seq<u32>, w: int, min_area: u32, result: Seq<u32>) -> bool {
    exists|m: Merge| m.absorbs(labels, w, min_area, result)
}

// ---- Tallies ------------------------------------------------------------

spec fn tally(list: Seq<(u32, u64)>, o: u32) -> int
    decreases list.len(),
{
    if list.len() == 0 {
        0
    } else {
        tally(list.drop_last(), o) + if list.last().0 == o {
            list.last().1 as int
        } else {
            0
        }
    }
}

spec fn tally_ok(list: Seq<(u32, u64)>, cap: int) -> bool {
    &&& forall|i: int| 0 <= i < list.len() ==> 1 <= (#[trigger] list[i]).1 <= cap
    &&& forall|i: int, j: int|
        0 <= i < j < list.len() ==> (#[trigger] list[i]).0 != (#[trigger] list[j]).0
}

proof fn lemma_tally_absent(list: Seq<(u32, u64)>, o: u32)
    requires
        forall|i: int| 0 <= i < list.len() ==> (#[trigger] list[i]).0 != o,
    ensures
        tally(list, o) == 0,
    decreases list.len(),
{
    if list.len() > 0 {
        assert(list[list.len() - 1].0 != o);
        assert forall|i: int| 0 <= i < list.drop_last().len() implies (
        #[trigger] list.drop_last()[i]).0 != o by {
            assert(list[i].0 != o);
        }
        lemma_tally_absent(list.drop_last(), o);
    }
}

proof fn lemma_tally_entry(list: Seq<(u32, u64)>, i: int, cap: int)
    requires
        tally_ok(list, cap),
        0 <= i < list.len(),
    ensures
        tally(list, list[i].0) == list[i].1,
    decreases list.len(),
{
    let o = list[i].0;
    if i == list.len() - 1 {
        assert forall|j: int| 0 <= j < list.drop_last().len() implies (
        #[trigger] list.drop_last()[j]).0 != o by {
            assert(list[j].0 != list[i].0);
        }
        lemma_tally_absent(list.drop_last(), o);
    } else {
        assert(list[i].0 != list[list.len() - 1].0);
        assert(tally_ok(list.drop_last(), cap)) by {
            assert forall|a: int| 0 <= a < list.drop_last().len() implies 1 <= (
            #[trigger] list.drop_last()[a]).1 <= cap by {
                assert(1 <= list[a].1 <= cap);
            }
            assert forall|a: int, b: int| 0 <= a < b < list.drop_last().len() implies (
            #[trigger] list.drop_last()[a]).0 != (#[trigger] list.drop_last()[b]).0 by {
                assert(list[a].0 != list[b].0);
            }
        }
        lemma_tally_entry(list.drop_last(), i, cap);
    }
}

proof fn lemma_tally_present(list: Seq<(u32, u64)>, o: u32) -> (i: int)
    requires
        tally(list, o) > 0,
    ensures
        0 <= i < list.len(),
        list[i].0 == o,
    decreases list.len(),
{
    if list.last().0 == o {
        list.len() - 1
    } else {
        lemma_tally_present(list.drop_last(), o)
    }
}

proof fn lemma_tally_update(list: Seq<(u32, u64)>, i: int, n: u64, x: u32)
    requires
        0 <= i < list.len(),
    ensures
        tally(list.update(i, (list[i].0, n)), x) == tally(list, x) + if x == list[i].0 {
            n - list[i].1
        } else {
            0
        },
    decreases list.len(),
{
    let next = list.update(i, (list[i].0, n));
    if i == list.len() - 1 {
        assert(next.drop_last() =~= list.drop_last());
    } else {
        assert(next.drop_last() =~= list.drop_last().update(i, (list[i].0, n)));
        lemma_tally_update(list.drop_last(), i, n, x);
    }
}

/// Count one more contact with region `o`.
fn bump(list: &mut Vec<(u32, u64)>, o: u32, Ghost(cap): Ghost<int>)
    requires
        tally_ok(old(list)@, cap),
        0 <= cap < u64::MAX,
    ensures
        tally_ok(final(list)@, cap + 1),
        forall|x: u32|
            #[trigger] tally(final(list)@, x) == tally(old(list)@, x) + one_if(x == o),
        forall|i: int|
            0 <= i < final(list)@.len() ==> (#[trigger] final(list)@[i]).0 == o || (i < old(
                list)@.len() && final(list)@[i].0 == old(list)@[i].0),
{
    let ghost l0 = list@;
    let mut i: usize = 0;
    while i < list.len()
        invariant
            i <= list@.len(),
            list@ == l0,
            l0 == old(list)@,
            tally_ok(l0, cap),
            cap < u64::MAX,
            forall|j: int| 0 <= j < i ==> (#[trigger] list@[j]).0 != o,
        decreases list@.len() - i,
    {
        let (key, n): (u32, u64) = list[i];
        if key == o {
            assert(list@[i as int].1 <= cap);
            list.set(i, (key, n + 1));
            proof {
                assert forall|x: u32| #[trigger] tally(list@, x) == tally(l0, x) + one_if(x == o) by {
                    lemma_tally_update(l0, i as int, (n + 1) as u64, x);
                }
                assert forall|a: int, b: int| 0 <= a < b < list@.len() implies (
                #[trigger] list@[a]).0 != (#[trigger] list@[b]).0 by {
                    assert(l0[a].0 != l0[b].0);
                }
                assert forall|a: int| 0 <= a < list@.len() implies 1 <= (#[trigger] list@[a]).1
                    <= cap + 1 by {
                    assert(1 <= l0[a].1 <= cap);
                }
            }
            return;
        }
        i = i + 1;
    }
    list.push((o, 1));
    proof {
        assert forall|x: u32| #[trigger] tally(list@, x) == tally(l0, x) + one_if(x == o) by {
            assert(list@.drop_last() =~= l0);
        }
        assert forall|a: int, b: int| 0 <= a < b < list@.len() implies (#[trigger] list@[a]).0 != (
        #[trigger] list@[b]).0 by {
            if b < l0.len() {
                assert(l0[a].0 != l0[b].0);
            }
        }
        assert forall|a: int| 0 <= a < list@.len() implies 1 <= (#[trigger] list@[a]).1 <= cap
            + 1 by {
            if a < l0.len() {
                assert(1 <= l0[a].1 <= cap);
            }
        }
    }
}

/// Count a contact with the region of pixel `q`, if it is not `r` itself.
fn touch(
    list: &mut Vec<(u32, u64)>,
    regions: &Vec<u32>,
    q: usize,
    r: u32,
    Ghost(cap): Ghost<int>,
    Ghost(k): Ghost<int>,
)
    requires
        tally_ok(old(list)@, cap),
        0 <= cap < u64::MAX,
        q < regions@.len(),
        regions@[q as int] < k,
        keys_ok(old(list)@, r, k),
    ensures
        tally_ok(final(list)@, cap + 1),
        keys_ok(final(list)@, r, k),
        forall|x: u32|
            x != r ==> #[trigger] tally(final(list)@, x) == tally(old(list)@, x) + one_if(
                regions@[q as int] == x,
            ),
{
    let o: u32 = regions[q];
    if o != r {
        bump(list, o, Ghost(cap));
    }
}

/// Every key is a region other than `r`.
spec fn keys_ok(list: Seq<(u32, u64)>, r: u32, k: int) -> bool {
    forall|i: int| 0 <= i < list.len() ==> (#[trigger] list[i]).0 != r && list[i].0 < k
}

/// The neighbour counts of the small regions over the first `m` pixels.
spec fn counted(
    contacts: Seq<Vec<(u32, u64)>>,
    regions: Seq<u32>,
    w: int,
    region_area: Seq<u32>,
    min_area: u32,
    m: int,
) -> bool {
    &&& contacts.len() == region_area.len()
    &&& forall|r: int|
        0 <= r < contacts.len() ==> tally_ok((#[trigger] contacts[r])@, 4 * m) && keys_ok(
            contacts[r]@,
            r as u32,
            region_area.len() as int,
        )
    &&& forall|r: int, o: u32|
        0 <= r < contacts.len() && region_area[r] < min_area && o != r ==> #[trigger] tally(
            contacts[r]@,
            o,
        ) == border_upto(regions, w, r as u32, o, m)
}

/// Shared border length from each small region to each neighbouring region.
fn count_contacts(
    w: usize,
    regions: &Vec<u32>,
    region_area: &Vec<u32>,
    min_area: u32,
) -> (contacts: Vec<Vec<(u32, u64)>>)
    requires
        w > 0,
        regions@.len() % (w as nat) == 0,
        regions@.len() < u32::MAX,
        region_area@.len() <= regions@.len(),
        forall|p: int|
            0 <= p < regions@.len() ==> (#[trigger] regions@[p]) < region_area@.len(),
    ensures
        counted(
            contacts@,
            regions@,
            w as int,
            region_area@,
            min_area,
            regions@.len() as int,
        ),
{
    let n: usize = regions.len();
    let k: usize = region_area.len();
    let mut contacts: Vec<Vec<(u32, u64)>> = Vec::new();
    let mut i: usize = 0;
    while i < k
        invariant
            i <= k,
            contacts@.len() == i,
            forall|r: int| 0 <= r < i ==> (#[trigger] contacts@[r])@.len() == 0,
        decreases k - i,
    {
        contacts.push(Vec::new());
        i = i + 1;
    }
    let mut p: usize = 0;
    while p < n
        invariant
            p <= n,
            n == regions@.len(),
            k == region_area@.len(),
            w > 0,
            n % w == 0,
            n < u32::MAX,
            k <= n,
            forall|p: int|
                0 <= p < regions@.len() ==> (#[trigger] regions@[p]) < region_area@.len(),
            counted(contacts@, regions@, w as int, region_area@, min_area, p as int),
        decreases n - p,
    {
        let ghost c0 = contacts@;
        let r: usize = regions[p] as usize;
        if region_area[r] < min_area {
            let mut list: Vec<(u32, u64)> = Vec::new();
            std::mem::swap(&mut list, &mut contacts[r]);
            let ghost l0 = list@;
            assert(l0 == c0[r as int]@);
            let ghost mut cap: int = 4 * p;
            if p > 0 && p % w != 0 {
                touch(&mut list, regions, p - 1, r as u32, Ghost(cap), Ghost(k as int));
                proof {
                    cap = cap + 1;
                }
            }
            if (p + 1) % w != 0 {
                assert(p + 1 != n);
                touch(&mut list, regions, p + 1, r as u32, Ghost(cap), Ghost(k as int));
                proof {
                    cap = cap + 1;
                }
            }
            if p >= w {
                touch(&mut list, regions, p - w, r as u32, Ghost(cap), Ghost(k as int));
                proof {
                    cap = cap + 1;
                }
            }
            if w < n - p {
                touch(&mut list, regions, p + w, r as u32, Ghost(cap), Ghost(k as int));
                proof {
                    cap = cap + 1;
                }
            }
            let ghost done = list@;
            proof {
                assert(tally_ok(done, 4 * (p + 1)));
                assert forall|o: u32| o != r implies #[trigger] tally(done, o) == tally(l0, o)
                    + pixel_contacts(regions@, w as int, p as int, o) by {
                }
            }
            std::mem::swap(&mut list, &mut contacts[r]);
            proof {
                assert(contacts@[r as int]@ == done);
                assert forall|s: int, o: u32|
                    0 <= s < contacts@.len() && region_area@[s] < min_area && o
                        != s implies #[trigger] tally(contacts@[s]@, o) == border_upto(
                    regions@,
                    w as int,
                    s as u32,
                    o,
                    p + 1,
                ) by {
                    if s != r {
                        assert(contacts@[s] == c0[s]);
                    }
                    assert(tally(c0[s]@, o) == border_upto(regions@, w as int, s as u32, o, p as int));
                }
                assert forall|s: int| 0 <= s < contacts@.len() implies tally_ok(
                    (#[trigger] contacts@[s])@,
                    4 * (p + 1),
                ) && keys_ok(contacts@[s]@, s as u32, region_area@.len() as int) by {
                    if s != r {
                        assert(contacts@[s] == c0[s]);
                        assert(tally_ok(c0[s]@, 4 * p));
                    }
                }
            }
        } else {
            proof {
                assert forall|s: int, o: u32|
                    0 <= s < contacts@.len() && region_area@[s] < min_area && o
                        != s implies #[trigger] tally(contacts@[s]@, o) == border_upto(
                    regions@,
                    w as int,
                    s as u32,
                    o,
                    p + 1,
                ) by {
                    assert(tally(c0[s]@, o) == border_upto(regions@, w as int, s as u32, o, p as int));
                }
                assert forall|s: int| 0 <= s < contacts@.len() implies tally_ok(
                    (#[trigger] contacts@[s])@,
                    4 * (p + 1),
                ) && keys_ok(contacts@[s]@, s as u32, region_area@.len() as int) by {
                    assert(tally_ok(c0[s]@, 4 * p));
                }
            }
        }
        p = p + 1;
    }
    contacts
}

/// Of the counted neighbours, one with the longest border, and among those one
/// with the largest area.
fn best_neighbour(list: &Vec<(u32, u64)>, region_area: &Vec<u32>) -> (best: Option<u32>)
    requires
        forall|i: int| 0 <= i < list@.len() ==> (#[trigger] list@[i]).0 < region_area@.len(),
    ensures
        match best {
            Some(t) => has_top(list@, region_area@, t),
            None => list@.len() == 0,
        },
{
    if list.len() == 0 {
        return None;
    }
    let mut at: usize = 0;
    let mut i: usize = 1;
    while i < list.len()
        invariant
            at < i <= list@.len(),
            forall|i: int| 0 <= i < list@.len() ==> (#[trigger] list@[i]).0 < region_area@.len(),
            forall|j: int|
                0 <= j < i ==> no_better(list@, region_area@, #[trigger] list@[j], list@[at as int]),
        decreases list@.len() - i,
    {
        let (o, border): (u32, u64) = list[i];
        let (t, top): (u32, u64) = list[at];
        assert(list@[i as int].0 < region_area@.len() && list@[at as int].0 < region_area@.len());
        if top < border || (top == border && region_area[t as usize] < region_area[o as usize]) {
            at = i;
        }
        i = i + 1;
    }
    let t: u32 = list[at].0;
    let best: Option<u32> = Some(t);
    proof {
        assert(is_top(list@, region_area@, at as int, t));
        assert(has_top(list@, region_area@, t));
    }
    best
}

spec fn no_better(
    list: Seq<(u32, u64)>,
    region_area: Seq<u32>,
    a: (u32, u64),
    b: (u32, u64),
) -> bool {
    a.1 < b.1 || (a.1 == b.1 && region_area[a.0 as int] <= region_area[b.0 as int])
}

spec fn is_top(list: Seq<(u32, u64)>, region_area: Seq<u32>, i: int, t: u32) -> bool {
    &&& 0 <= i < list.len()
    &&& list[i].0 == t
    &&& forall|j: int|
        0 <= j < list.len() ==> no_better(list, region_area, #[trigger] list[j], list[i])
}

spec fn has_top(list: Seq<(u32, u64)>, region_area: Seq<u32>, t: u32) -> bool {
    exists|i: int| is_top(list, region_area, i, t)
}

/// The counts tell which neighbour is best.
proof fn lemma_best(
    contacts: Seq<Vec<(u32, u64)>>,
    m: Merge,
    w: int,
    min_area: u32,
    r: u32,
    best: Option<u32>,
)
    requires
        counted(
            contacts,
            m.regions,
            w,
            m.region_area,
            min_area,
            m.regions.len() as int,
        ),
        r < m.region_area.len(),
        m.region_area[r as int] < min_area,
        match best {
            Some(t) => has_top(contacts[r as int]@, m.region_area, t),
            None => contacts[r as int]@.len() == 0,
        },
    ensures
        match best {
            Some(t) => m.is_best_target(w, r, t),
            None => m.has_no_neighbour(w, r),
        },
{
    let list = contacts[r as int]@;
    let cap = 4 * m.regions.len() as int;
    assert(tally_ok(contacts[r as int]@, cap));
    assert(keys_ok(contacts[r as int]@, r, m.region_area.len() as int));
    match best {
        Some(t) => {
            let i = choose|i: int| #[trigger] is_top(list, m.region_area, i, t);
            assert(list[i].0 != r);
            lemma_tally_entry(list, i, cap);
            assert(tally(contacts[r as int]@, t) == shared_border(m.regions, w, r, t));
            assert forall|o: u32| o != r && #[trigger] shared_border(
                m.regions,
                w,
                r,
                o,
            ) > 0 implies shared_border(m.regions, w, r, o) < shared_border(m.regions, w, r, t) || (
            shared_border(m.regions, w, r, o) == shared_border(m.regions, w, r, t)
                && m.region_area[o as int] <= m.region_area[t as int]) by {
                assert(tally(contacts[r as int]@, o) == shared_border(m.regions, w, r, o));
                let j = lemma_tally_present(list, o);
                lemma_tally_entry(list, j, cap);
                assert(no_better(list, m.region_area, list[j], list[i]));
            }
        },
        None => {
            assert forall|o: u32| o != r implies #[trigger] shared_border(m.regions, w, r, o)
                == 0 by {
                assert(tally(contacts[r as int]@, o) == shared_border(m.regions, w, r, o));
            }
        },
    }
}

/// The regions below `min_area`, smallest first.
fn small_regions(region_area: &Vec<u32>, min_area: u32) -> (order: Vec<u32>)
    requires
        region_area@.len() < u32::MAX,
    ensures
        forall|m: Merge|
            m.region_area == region_area@ && m.order == order@ ==> #[trigger] m.order_ok(min_area),
{
    let mut small: Vec<u32> = Vec::new();
    let mut keys: Vec<Rank> = Vec::new();
    let mut r: usize = 0;
    while r < region_area.len()
        invariant
            r <= region_area@.len(),
            region_area@.len() < u32::MAX,
            keys@.len() == small@.len(),
            forall|k: int|
                0 <= k < small@.len() ==> (#[trigger] small@[k]) < r && region_area@[small@[k] as int]
                    < min_area && keys@[k] == (Rank {
                    first: region_area@[small@[k] as int] as i64,
                    second: 0,
                    third: 0,
                    fourth: 0,
                }),
            forall|k: int, l: int|
                0 <= k < l < small@.len() ==> (#[trigger] small@[k]) < (#[trigger] small@[l]),
            forall|q: u32|
                q < r && #[trigger] region_area@[q as int] < min_area ==> small@.contains(q),
        decreases region_area@.len() - r,
    {
        let ghost s0 = small@;
        if region_area[r] < min_area {
            small.push(r as u32);
            keys.push(Rank { first: region_area[r] as i64, second: 0, third: 0, fourth: 0 });
            proof {
                assert(small@[s0.len() as int] == r as u32);
                assert forall|q: u32|
                    q < r + 1 && #[trigger] region_area@[q as int] < min_area implies small@.contains(
                    q,
                ) by {
                    if q < r {
                        let k = choose|k: int| 0 <= k < s0.len() && s0[k] == q;
                        assert(small@[k] == q);
                    }
                }
            }
        }
        r = r + 1;
    }
    let perm: Vec<usize> = stable_order(&keys);
    let mut order: Vec<u32> = Vec::new();
    let mut i: usize = 0;
    while i < perm.len()
        invariant
            i <= perm@.len(),
            perm@.len() == small@.len(),
            is_stable_order(keys@, perm@),
            keys@.len() == small@.len(),
            order@.len() == i,
            forall|k: int| 0 <= k < i ==> #[trigger] order@[k] == small@[perm@[k] as int],
        decreases perm@.len() - i,
    {
        assert(perm@[i as int] < keys@.len());
        order.push(small[perm[i]]);
        i = i + 1;
    }
    proof {
        assert forall|m: Merge|
            m.region_area == region_area@ && m.order == order@ implies #[trigger] m.order_ok(
            min_area,
        ) by {
            assert forall|k: int| 0 <= k < m.order.len() implies (#[trigger] m.order[k])
                < m.region_area.len() && m.region_area[m.order[k] as int] < min_area by {
                assert(perm@[k] < keys@.len());
                assert(small@[perm@[k] as int] < region_area@.len());
            }
            assert forall|q: u32|
                q < m.region_area.len() && #[trigger] m.region_area[q as int]
                    < min_area implies m.order.contains(q) by {
                assert(region_area@[q as int] < min_area);
                let k = choose|k: int| 0 <= k < small@.len() && small@[k] == q;
                assert(perm@.contains(k as usize));
                let l = choose|l: int| 0 <= l < perm@.len() && perm@[l] == k as usize;
                assert(order@[l] == q);
            }
            assert forall|k: int, l: int| 0 <= k < l < m.order.len() implies {
                let a = #[trigger] m.order[k];
                let b = #[trigger] m.order[l];
                m.region_area[a as int] < m.region_area[b as int] || (m.region_area[a as int]
                    == m.region_area[b as int] && a < b)
            } by {
                let i = perm@[k];
                let j = perm@[l];
                assert(sorts_before(keys@, i, j));
                assert(i < keys@.len() && j < keys@.len());
                assert(order@[k] == small@[i as int] && order@[l] == small@[j as int]);
            }
        }
    }
    order
}

/// Absorb regions below `min_area` into whichever neighbour they share the most
/// border with, and say whether anything changed.
pub fn despeckle(width: u32, height: u32, labels: &mut Vec<u32>, min_area: u32) -> (changed: bool)
    requires
        old(labels)@.len() == width * height,
        old(labels)@.len() < u32::MAX,
    ensures
        despeckled(old(labels)@, width as int, min_area, final(labels)@),
        changed == (final(labels)@ != old(labels)@),
{
    let ghost l0 = labels@;
    let n: usize = labels.len();
    let (regions, region_label, region_area) = connected_components(width, height, labels);
    if n == 0 {
        proof {
            let m = Merge {
                regions: regions@,
                region_label: region_label@,
                region_area: region_area@,
                order: Seq::empty(),
                targets: Seq::empty(),
            };
            if region_label@.len() > 0 {
                assert(numbered_in_order(regions@, 0));
            }
            assert(m.order_ok(min_area));
            assert(m.absorbs(l0, width as int, min_area, l0));
        }
        return false;
    }
    proof {
        assert(width > 0) by {
            if width == 0 {
                assert(width * height == 0) by (nonlinear_arith)
                    requires
                        width == 0,
                ;
            }
        }
        assert(n % (width as usize) == 0) by (nonlinear_arith)
            requires
                n == width * height,
                width > 0,
        ;
        lemma_few_regions(l0, width as int, regions@, region_label@, region_area@);
    }
    let order: Vec<u32> = small_regions(&region_area, min_area);
    let contacts: Vec<Vec<(u32, u64)>> = count_contacts(
        width as usize,
        &regions,
        &region_area,
        min_area,
    );
    let mut current: Vec<u32> = Vec::new();
    let mut i: usize = 0;
    while i < region_label.len()
        invariant
            i <= region_label@.len(),
            current@ == region_label@.take(i as int),
        decreases region_label@.len() - i,
    {
        current.push(region_label[i]);
        assert(region_label@.take(i + 1) =~= region_label@.take(i as int).push(
            region_label@[i as int],
        ));
        i = i + 1;
    }
    assert(region_label@.take(i as int) =~= region_label@);
    let ghost mut m = Merge {
        regions: regions@,
        region_label: region_label@,
        region_area: region_area@,
        order: order@,
        targets: Seq::empty(),
    };
    let ghost m0 = m;
    let mut changed: bool = false;
    let mut k: usize = 0;
    assert(m.order_ok(min_area));
    while k < order.len()
        invariant
            k <= order@.len(),
            m.regions == regions@,
            m.region_label == region_label@,
            m.region_area == region_area@,
            m.order == order@,
            m.order_ok(min_area),
            m.targets.len() == k,
            current@.len() == region_label@.len(),
            region_label@.len() == region_area@.len(),
            forall|j: int|
                0 <= j < k ==> match #[trigger] m.targets[j] {
                    Some(t) => m.is_best_target(width as int, m.order[j], t),
                    None => m.has_no_neighbour(width as int, m.order[j]),
                },
            counted(
                contacts@,
                regions@,
                width as int,
                region_area@,
                min_area,
                regions@.len() as int,
            ),
            current@ == m.settled(k as int),
            !changed ==> current@ == region_label@,
            changed ==> exists|j: int|
                0 <= j < k && current@[(#[trigger] order@[j]) as int]
                    != region_label@[order@[j] as int],
            forall|j: int|
                k <= j < order@.len() ==> current@[(#[trigger] order@[j]) as int]
                    == region_label@[order@[j] as int],
        decreases order@.len() - k,
    {
        let ghost m1 = m;
        let ghost c0 = current@;
        let r: u32 = order[k];
        assert(m.order[k as int] < m.region_area.len() && m.region_area[m.order[k as int] as int]
            < min_area);
        assert(keys_ok(contacts@[r as int]@, r, region_area@.len() as int));
        let best: Option<u32> = best_neighbour(&contacts[r as usize], &region_area);
        proof {
            m = Merge { targets: m1.targets.push(best), ..m1 };
            lemma_best(contacts@, m, width as int, min_area, r, best);
            lemma_settled_prefix(m1, best, k as int);
            assert(m.targets[k as int] == best);
            assert forall|j: int| 0 <= j < k + 1 implies match #[trigger] m.targets[j] {
                Some(t) => m.is_best_target(width as int, m.order[j], t),
                None => m.has_no_neighbour(width as int, m.order[j]),
            } by {
                if j < k {
                    assert(m.targets[j] == m1.targets[j]);
                }
            }
        }
        match best {
            Some(t) => {
                let label: u32 = current[t as usize];
                if label != current[r as usize] {
                    current.set(r as usize, label);
                    changed = true;
                    proof {
                        assert(current@[order@[k as int] as int] != region_label@[order@[k as int] as int]);
                    }
                } else {
                    assert(c0.update(r as int, c0[t as int]) =~= c0);
                }
            },
            None => {},
        }
        proof {
            assert forall|j: int| 0 <= j < order@.len() && j != k implies current@[(
            #[trigger] order@[j]) as int] == c0[order@[j] as int] by {
                if j < k {
                    assert(m.order[j] != m.order[k as int]);
                } else {
                    assert(m.order[k as int] != m.order[j]);
                }
            }
            if changed && c0 != region_label@ {
                let j = choose|j: int|
                    0 <= j < k && c0[(#[trigger] order@[j]) as int]
                        != region_label@[order@[j] as int];
                if 0 <= j < k && c0[order@[j] as int] != region_label@[order@[j] as int] {
                    assert(current@[order@[j] as int] != region_label@[order@[j] as int]);
                }
            }
        }
        k = k + 1;
    }
    if changed {
        let mut p: usize = 0;
        while p < n
            invariant
                p <= n,
                n == labels@.len(),
                n == regions@.len(),
                current@.len() == region_label@.len(),
                forall|q: int|
                    0 <= q < n ==> (#[trigger] regions@[q]) < region_label@.len(),
                forall|q: int|
                    0 <= q < p ==> #[trigger] labels@[q] == current@[regions@[q] as int],
            decreases n - p,
        {
            labels.set(p, current[regions[p] as usize]);
            p = p + 1;
        }
    }
    proof {
        assert(m.targets_ok(width as int));
        assert forall|p: int| 0 <= p < l0.len() implies #[trigger] labels@[p] == m.settled(
            m.order.len() as int,
        )[m.regions[p] as int] by {
            assert(regions@[p] < region_label@.len());
        }
        assert(m.absorbs(l0, width as int, min_area, labels@));
        if changed {
            let j = choose|j: int|
                0 <= j < k && current@[(#[trigger] order@[j]) as int]
                    != region_label@[order@[j] as int];
            let r = order@[j];
            assert(m.order[j] < m.region_area.len());
            assert(numbered_in_order(regions@, r as int));
            let p = choose|p: int| first_pixel(regions@, r as int, p);
            assert(labels@[p] == current@[regions@[p] as int]);
            assert(region_label@[regions@[p] as int] == l0[p]);
            assert(labels@[p] != l0[p]);
        }
    }
    changed
}

/// What has been settled does not depend on later targets.
proof fn lemma_settled_prefix(m: Merge, best: Option<u32>, k: int)
    requires
        0 <= k <= m.targets.len(),
    ensures
        (Merge { targets: m.targets.push(best), ..m }).settled(k) == m.settled(k),
    decreases k,
{
    if k > 0 {
        lemma_settled_prefix(m, best, k - 1);
        assert(m.targets.push(best)[k - 1] == m.targets[k - 1]);
    }
}

/// There are no more regions than pixels.
pub proof fn lemma_few_regions(
    labels: Seq<u32>,
    w: int,
    regions: Seq<u32>,
    region_label: Seq<u32>,
    region_area: Seq<u32>,
)
    requires
        is_components(labels, w, regions, region_label, region_area),
    ensures
        region_area.len() <= labels.len(),
{
    if region_area.len() > 0 {
        lemma_region_at_most(labels, w, regions, region_label, region_area, region_area.len() - 1);
    }
}

proof fn lemma_region_at_most(
    labels: Seq<u32>,
    w: int,
    regions: Seq<u32>,
    region_label: Seq<u32>,
    region_area: Seq<u32>,
    r: int,
)
    requires
        is_components(labels, w, regions, region_label, region_area),
        0 <= r < region_area.len(),
    ensures
        exists|p: int| first_pixel(regions, r, p) && r <= p,
    decreases r,
{
    assert(numbered_in_order(regions, r));
    let p = choose|p: int| first_pixel(regions, r, p);
    if r > 0 {
        lemma_region_at_most(labels, w, regions, region_label, region_area, r - 1);
        let s = r - 1;
        let q = choose|q: int| first_pixel(regions, s, q) && s <= q;
        // The first pixel of a lower region cannot come after that of a higher.
        if p <= q {
            if p < q {
                assert(regions[p] < r - 1);
            }
        }
    }
}

// ---- What is absorbed ---------------------------------------------------

/// The border that a pixel adds is the number of its neighbours, of the four that share a
/// side with it, that are in the other region.
pub proof fn law_borders_are_counted_side_by_side(
    regions: Seq<u32>,
    w: int,
    h: int,
    x: int,
    y: int,
    o: u32,
)
    requires
        regions.len() == w * h,
        0 <= x < w,
        0 <= y < h,
    ensures
        ({
            let there = |u: int, v: int|
                if 0 <= u < w && 0 <= v < h && regions[v * w + u] == o {
                    1int
                } else {
                    0
                };
            pixel_contacts(regions, w, y * w + x, o) == there(x - 1, y) + there(x + 1, y) + there(
                x,
                y - 1,
            ) + there(x, y + 1)
        }),
{
    let p = y * w + x;
    vstd::arithmetic::div_mod::lemma_fundamental_div_mod_converse(p, w, y, x);
    assert((y + 1) * w == y * w + w) by (nonlinear_arith);
    assert((y - 1) * w == y * w - w) by (nonlinear_arith);
    assert(y * w >= 0) by (nonlinear_arith)
        requires
            y >= 0,
            w >= 0,
    ;
    assert(y >= 1 ==> y * w >= w) by (nonlinear_arith)
        requires
            w >= 0,
    ;
    assert(y == 0 ==> p < w);
    assert((y + 1) * w + x < (y + 2) * w) by (nonlinear_arith)
        requires
            x < w,
    ;
    assert(y + 1 < h ==> (y + 2) * w <= w * h) by (nonlinear_arith)
        requires
            w >= 0,
    ;
    assert(y + 1 >= h ==> (y + 1) * w + x >= w * h) by (nonlinear_arith)
        requires
            x >= 0,
            w >= 0,
    ;
    if x + 1 < w {
        vstd::arithmetic::div_mod::lemma_fundamental_div_mod_converse(p + 1, w, y, x + 1);
    } else {
        vstd::arithmetic::div_mod::lemma_fundamental_div_mod_converse(p + 1, w, y + 1, 0);
    }
}

/// A region is absorbed once: its label is the one its target had by then.
proof fn lemma_settled(m: Merge, min_area: u32, k: int, n: int, r: int)
    requires
        m.order_ok(min_area),
        m.targets.len() == m.order.len(),
        m.region_label.len() == m.region_area.len(),
        0 <= k <= n <= m.order.len(),
        0 <= r < m.region_label.len(),
        forall|l: int| k <= l < n ==> #[trigger] m.order[l] != r,
    ensures
        m.settled(n).len() == m.region_label.len(),
        m.settled(n)[r] == m.settled(k)[r],
    decreases n,
{
    if n > 0 {
        assert(m.order[n - 1] < m.region_area.len());
        if n > k {
            lemma_settled(m, min_area, k, n - 1, r);
            assert(m.order[n - 1] != r);
        } else {
            lemma_settled(m, min_area, n - 1, n - 1, r);
        }
    }
}

/// Only specks change: a pixel of a region that is not below the smallest area keeps its
/// label, and so does one of a region without neighbours.
pub proof fn law_only_specks_are_absorbed(
    m: Merge,
    labels: Seq<u32>,
    w: int,
    min_area: u32,
    result: Seq<u32>,
    p: int,
)
    requires
        m.absorbs(labels, w, min_area, result),
        0 <= p < labels.len(),
        m.region_area[m.regions[p] as int] >= min_area || forall|o: u32|
            o != m.regions[p] ==> #[trigger] shared_border(m.regions, w, m.regions[p], o) == 0,
        m.region_area.len() <= u32::MAX,
    ensures
        result[p] == labels[p],
{
    let r = m.regions[p];
    let n = m.order.len() as int;
    assert(m.regions[p] < m.region_label.len());
    if m.order.contains(r) {
        let k = choose|k: int| 0 <= k < n && m.order[k] == r;
        assert(m.region_area[m.order[k] as int] < min_area);
        match m.targets[k] {
            Some(t) => {
                assert(m.is_best_target(w, r, t));
                assert(shared_border(m.regions, w, r, t) > 0);
            },
            None => {},
        }
        assert forall|l: int| k + 1 <= l < n implies #[trigger] m.order[l] != r by {
            let a = m.order[k];
            let b = m.order[l];
        }
        assert forall|l: int| 0 <= l < k implies #[trigger] m.order[l] != r by {
            let a = m.order[l];
            let b = m.order[k];
        }
        lemma_settled(m, min_area, k + 1, n, r as int);
        lemma_settled(m, min_area, 0, k, r as int);
    } else {
        assert forall|l: int| 0 <= l < n implies #[trigger] m.order[l] != r by {}
        lemma_settled(m, min_area, 0, n, r as int);
    }
}

/// A speck takes the label of a neighbour with which it shares as much border as with any
/// other, and that is no smaller than any other with which it shares as much. Where that
/// neighbour is no speck itself, this is the label it has.
pub proof fn law_specks_join_their_longest_border(
    m: Merge,
    labels: Seq<u32>,
    w: int,
    min_area: u32,
    result: Seq<u32>,
    p: int,
    o: u32,
) -> (t: u32)
    requires
        m.absorbs(labels, w, min_area, result),
        0 <= p < labels.len(),
        m.region_area[m.regions[p] as int] < min_area,
        o != m.regions[p],
        shared_border(m.regions, w, m.regions[p], o) > 0,
        m.region_area.len() <= u32::MAX,
    ensures
        t != m.regions[p],
        t < m.region_area.len(),
        shared_border(m.regions, w, m.regions[p], t) >= shared_border(
            m.regions,
            w,
            m.regions[p],
            o,
        ),
        shared_border(m.regions, w, m.regions[p], t) == shared_border(
            m.regions,
            w,
            m.regions[p],
            o,
        ) ==> m.region_area[t as int] >= m.region_area[o as int],
        m.region_area[t as int] >= min_area ==> result[p] == m.region_label[t as int],
{
    let r = m.regions[p];
    let n = m.order.len() as int;
    assert(m.regions[p] < m.region_label.len());
    assert(m.order.contains(r));
    let k = choose|k: int| 0 <= k < n && m.order[k] == r;
    match m.targets[k] {
        Some(t) => {
            assert(m.is_best_target(w, r, t));
            assert forall|l: int| k + 1 <= l < n implies #[trigger] m.order[l] != r by {
                let a = m.order[k];
                let b = m.order[l];
            }
            lemma_settled(m, min_area, k + 1, n, r as int);
            lemma_settled(m, min_area, k, k, r as int);
            if m.region_area[t as int] >= min_area {
                assert forall|l: int| 0 <= l < k implies #[trigger] m.order[l] != t by {
                    assert(m.region_area[m.order[l] as int] < min_area);
                }
                lemma_settled(m, min_area, 0, k, t as int);
            }
            t
        },
        None => {
            assert(m.has_no_neighbour(w, r));
            r
        },
    }
}

/// Specks are absorbed from the smallest on, equal ones in the order of their numbers, and
/// every region below the smallest area is one.
pub proof fn law_specks_go_smallest_first(m: Merge, min_area: u32, k: int, l: int, r: u32)
    requires
        m.order_ok(min_area),
        0 <= k < l < m.order.len(),
        r < m.region_area.len(),
    ensures
        m.region_area[m.order[k] as int] <= m.region_area[m.order[l] as int],
        m.region_area[m.order[k] as int] == m.region_area[m.order[l] as int] ==> m.order[k]
            < m.order[l],
        m.region_area[m.order[l] as int] < min_area,
        m.region_area[r as int] < min_area <==> m.order.contains(r),
{
    let a = m.order[k];
    let b = m.order[l];
    let small = m.region_area[r as int];
    if m.order.contains(r) {
        let q = choose|q: int| 0 <= q < m.order.len() && m.order[q] == r;
        assert(m.region_area[m.order[q] as int] < min_area);
    }
}

} // verus!
