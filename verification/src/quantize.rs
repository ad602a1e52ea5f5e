//! Palette extraction: the parts that pick, flag and match palette entries.
//!
//! An anti-aliased image contains two very different kinds of pixel. Interior
//! pixels carry real colours from the original artwork, edge pixels carry
//! *blends* of two real colours. Palette extraction samples pixels, clusters
//! them, flags the entries that are to stay unpainted, and then assigns each
//! pixel to whichever entry it is closest to.

use crate::color::Rgba8;
use crate::pure::{call1, call2, pure1, pure2, value1, value2};
use vstd::prelude::*;

verus! {

/// Small deterministic PRNG. Reproducibility matters more than statistical
/// quality here: the auto-picker compares configs, and a config has to mean the
/// same thing every time it is run.
pub struct Rng {
    state: u64,
}

/// The state that a seed gives.
pub open spec fn rng_seeded(seed: u64) -> u64 {
    vstd::wrapping::u64_specs::wrapping_add(vstd::wrapping::u64_specs::wrapping_mul(seed, 6364136223846793005), 1442695040888963407) | 1
}

/// One step of a 64-bit xorshift.
pub open spec fn rng_step(x: u64) -> u64 {
    let a = x ^ (x >> 12);
    let b = a ^ (a << 25);
    b ^ (b >> 27)
}

/// The number handed out on reaching a state.
pub open spec fn rng_output(state: u64) -> u64 {
    vstd::wrapping::u64_specs::wrapping_mul(state, 0x2545F4914F6CDD1D)
}

impl Rng {
    pub closed spec fn state(&self) -> u64 {
        self.state
    }

    pub fn new(seed: u64) -> (r: Self)
        ensures
            r.state() == rng_seeded(seed),
    {
        Rng {
            state: seed.wrapping_mul(6364136223846793005).wrapping_add(1442695040888963407) | 1,
        }
    }

    pub fn next_u64(&mut self) -> (v: u64)
        ensures
            final(self).state() == rng_step(old(self).state()),
            v == rng_output(rng_step(old(self).state())),
    {
        let mut x: u64 = self.state;
        x = x ^ (x >> 12);
        x = x ^ (x << 25);
        x = x ^ (x >> 27);
        self.state = x;
        x.wrapping_mul(0x2545F4914F6CDD1D)
    }

    /// A number below `n`; 0, and no step taken, where `n` is 0.
    pub fn below(&mut self, n: usize) -> (v: usize)
        ensures
            n == 0 ==> v == 0 && final(self).state() == old(self).state(),
            n > 0 ==> v == rng_output(rng_step(old(self).state())) % (n as u64) && v < n
                && final(self).state() == rng_step(old(self).state()),
    {
        if n == 0 {
            0
        } else {
            (self.next_u64() % n as u64) as usize
        }
    }
}

/// A generator never falls into the all-zero state, in which it would only hand
/// out zeros.
pub proof fn law_rng_never_stalls(seed: u64, x: u64)
    ensures
        rng_seeded(seed) != 0,
        x != 0 ==> rng_step(x) != 0,
{
    let s = vstd::wrapping::u64_specs::wrapping_add(vstd::wrapping::u64_specs::wrapping_mul(seed, 6364136223846793005), 1442695040888963407);
    assert(s | 1 != 0) by (bit_vector);
    let a = x ^ (x >> 12);
    let b = a ^ (a << 25);
    assert(x != 0 ==> a != 0) by (bit_vector)
        requires
            a == x ^ (x >> 12),
    ;
    assert(a != 0 ==> b != 0) by (bit_vector)
        requires
            b == a ^ (a << 25),
    ;
    assert(b != 0 ==> (b ^ (b >> 27)) != 0) by (bit_vector);
}

/// Multiplying by an odd constant loses nothing.
proof fn lemma_output_is_injective(x: u64, y: u64)
    requires
        rng_output(x) == rng_output(y),
    ensures
        x == y,
{
    let k: int = 0x2545F4914F6CDD1D;
    let m: int = 0x1_0000_0000_0000_0000;
    // An inverse of `k` modulo `m`, and what its product with `k` carries.
    let inverse: int = 6415128727920758069;
    let carried: int = 934034299265436267;
    assert(k * inverse == 1 + m * carried);
    let a = (x as int * k) / m;
    let b = (y as int * k) / m;
    assert((x as int * k) % m == (y as int * k) % m);
    assert(x as int * k == m * a + (x as int * k) % m);
    assert(y as int * k == m * b + (y as int * k) % m);
    let d = x as int - y as int;
    assert(d * k == m * (a - b));
    assert(d + d * carried * m == (a - b) * inverse * m);
    let t = (a - b) * inverse - d * carried;
    assert(d == t * m);
}

/// What a generator hands out is never zero, and generators in different states
/// hand out different numbers and go on to different states.
pub proof fn law_draws_tell_states_apart(x: u64, y: u64)
    ensures
        x != 0 ==> rng_output(rng_step(x)) != 0,
        x != y ==> rng_step(x) != rng_step(y) && rng_output(rng_step(x)) != rng_output(
            rng_step(y),
        ),
{
    assert(x != y ==> ({
        let a = x ^ (x >> 12);
        let b = a ^ (a << 25);
        b ^ (b >> 27)
    }) != ({
        let a = y ^ (y >> 12);
        let b = a ^ (a << 25);
        b ^ (b >> 27)
    })) by (bit_vector);
    if x != y && rng_output(rng_step(x)) == rng_output(rng_step(y)) {
        lemma_output_is_injective(rng_step(x), rng_step(y));
    }
    if x != 0 {
        law_rng_never_stalls(0, x);
        if rng_output(rng_step(x)) == 0 {
            assert(rng_output(0) == 0);
            lemma_output_is_injective(rng_step(x), 0);
        }
    }
}

// ---- Sampling -----------------------------------------------------------

/// The step between sampled pixels, chosen so that about `limit` are taken.
pub open spec fn sample_stride(n: int, limit: int) -> int {
    if n > limit {
        n / limit
    } else {
        1
    }
}

/// The indices below `m` that lie a whole number of strides after `start` and
/// are opaque, in order.
pub open spec fn sampled(opaque: Seq<bool>, start: int, stride: int, m: int) -> Seq<usize>
    decreases m,
{
    if m <= 0 {
        Seq::empty()
    } else {
        let rest = sampled(opaque, start, stride, m - 1);
        let i = m - 1;
        if i >= start && (i - start) % stride == 0 && opaque[i] {
            rest.push(i as usize)
        } else {
            rest
        }
    }
}

/// All of `opaque` before `m` contributes what the strides up to there do.
proof fn lemma_sampled_gap(opaque: Seq<bool>, start: int, stride: int, from: int, to: int)
    requires
        stride > 0,
        start <= from,
        from <= to,
        forall|i: int| from <= i < to ==> #[trigger] ((i - start) % stride) != 0,
    ensures
        sampled(opaque, start, stride, to) == sampled(opaque, start, stride, from),
    decreases to - from,
{
    if from < to {
        lemma_sampled_gap(opaque, start, stride, from, to - 1);
        assert(((to - 1) - start) % stride != 0);
    }
}

proof fn lemma_sampled_before(opaque: Seq<bool>, start: int, stride: int, m: int)
    requires
        m <= start,
    ensures
        sampled(opaque, start, stride, m) == Seq::<usize>::empty(),
    decreases m,
{
    if m > 0 {
        lemma_sampled_before(opaque, start, stride, m - 1);
    }
}

/// `out` are the opaque pixels that a generator in `state` picks, about `limit`
/// of them, or every pixel where it picks none.
pub open spec fn is_sample(opaque: Seq<bool>, limit: int, state: u64, out: Seq<usize>) -> bool {
    let n = opaque.len() as int;
    let stride = sample_stride(n, limit);
    let start = (rng_output(rng_step(state)) as int) % stride;
    let hits = sampled(opaque, start, stride, n);
    &&& hits.len() > 0 ==> out == hits
    &&& hits.len() == 0 ==> out == Seq::new(opaque.len(), |i: int| i as usize)
}

proof fn lemma_sampled_in_range(opaque: Seq<bool>, start: int, stride: int, m: int)
    requires
        0 <= m <= usize::MAX,
    ensures
        sampled(opaque, start, stride, m).len() <= m,
        forall|k: int|
            0 <= k < sampled(opaque, start, stride, m).len() ==> (#[trigger] sampled(
                opaque,
                start,
                stride,
                m,
            )[k]) < m,
    decreases m,
{
    if m > 0 {
        lemma_sampled_in_range(opaque, start, stride, m - 1);
        let rest = sampled(opaque, start, stride, m - 1);
        let all = sampled(opaque, start, stride, m);
        assert forall|k: int| 0 <= k < all.len() implies (#[trigger] all[k]) < m by {
            if k < rest.len() {
                assert(all[k] == rest[k]);
            }
        }
    }
}

/// A sample holds pixels of the image, and no more than there are.
pub proof fn lemma_sample_in_range(opaque: Seq<bool>, limit: int, state: u64, out: Seq<usize>)
    requires
        is_sample(opaque, limit, state, out),
        opaque.len() <= usize::MAX,
    ensures
        forall|k: int| 0 <= k < out.len() ==> (#[trigger] out[k]) < opaque.len(),
        out.len() <= opaque.len(),
{
    let n = opaque.len() as int;
    let stride = sample_stride(n, limit);
    let start = (rng_output(rng_step(state)) as int) % stride;
    lemma_sampled_in_range(opaque, start, stride, n);
}

/// Collect a sample of pixels for clustering. Full images are far larger than
/// clustering needs, and sampling keeps palette extraction roughly constant-time
/// regardless of resolution. Where every sampled pixel is transparent, all
/// pixels are used, so that downstream code still receives a palette.
pub fn sample_pixels(opaque: &Vec<bool>, limit: usize, rng: &mut Rng) -> (out: Vec<usize>)
    requires
        limit > 0,
    ensures
        final(rng).state() == rng_step(old(rng).state()),
        is_sample(opaque@, limit as int, old(rng).state(), out@),
{
    let n: usize = opaque.len();
    let stride: usize = if n > limit {
        n / limit
    } else {
        1
    };
    assert(stride > 0) by {
        if n > limit {
            assert(n / limit >= 1) by (nonlinear_arith)
                requires
                    n > limit,
                    limit > 0,
            ;
        }
    }
    let start: usize = rng.below(stride);
    let mut out: Vec<usize> = Vec::new();
    let mut i: usize = start;
    let mut over: bool = i >= n;
    proof {
        if start <= n {
            lemma_sampled_before(opaque@, start as int, stride as int, start as int);
        } else {
            lemma_sampled_before(opaque@, start as int, stride as int, n as int);
        }
        assert(0int % (stride as int) == 0) by (nonlinear_arith)
            requires
                stride > 0,
        ;
    }
    while !over
        invariant
            n == opaque@.len(),
            stride > 0,
            start <= i || over,
            !over ==> i < n && (i - start) % (stride as int) == 0 && out@ == sampled(
                opaque@,
                start as int,
                stride as int,
                i as int,
            ),
            over ==> out@ == sampled(opaque@, start as int, stride as int, n as int),
        decreases (if over {
            0int
        } else {
            n - i + 1
        }),
    {
        if opaque[i] {
            out.push(i);
        }
        let ghost at = i as int;
        assert(out@ == sampled(opaque@, start as int, stride as int, at + 1));
        if stride >= n - i {
            proof {
                assert forall|k: int| at + 1 <= k < n implies #[trigger] ((k - start) % (
                stride as int)) != 0 by {
                    lemma_no_multiple_at(at - start, stride as int, k - start);
                }
                lemma_sampled_gap(opaque@, start as int, stride as int, at + 1, n as int);
            }
            over = true;
        } else {
            proof {
                assert forall|k: int| at + 1 <= k < at + stride implies #[trigger] ((k - start) % (
                stride as int)) != 0 by {
                    lemma_no_multiple_at(at - start, stride as int, k - start);
                }
                lemma_sampled_gap(opaque@, start as int, stride as int, at + 1, at + stride);
                assert((at + stride - start) % (stride as int) == 0) by (nonlinear_arith)
                    requires
                        stride > 0,
                        (at - start) % (stride as int) == 0,
                ;
            }
            i = i + stride;
        }
    }
    if out.len() == 0 {
        let mut k: usize = 0;
        while k < n
            invariant
                k <= n,
                out@.len() == k,
                forall|j: int| 0 <= j < k ==> #[trigger] out@[j] == j,
            decreases n - k,
        {
            out.push(k);
            k = k + 1;
        }
        assert(out@ =~= Seq::new(opaque@.len(), |i: int| i as usize));
    }
    out
}

proof fn lemma_no_multiple_at(a: int, stride: int, k: int)
    requires
        stride > 0,
        a % stride == 0,
        a < k < a + stride,
    ensures
        k % stride != 0,
{
    assert(k % stride != 0) by (nonlinear_arith)
        requires
            stride > 0,
            a % stride == 0,
            a < k < a + stride,
    ;
}

// ---- Palette entries ----------------------------------------------------

/// A palette entry. `L` is the perceptual coordinate of the colour.
#[derive(Clone, Copy, Debug)]
pub struct PaletteEntry<L> {
    pub color: Rgba8,
    pub lab: L,
    /// Pixels assigned to this entry are left unpainted. Set for the entry that
    /// stands for alpha-transparent pixels and for any entry matching one of
    /// the colours asked to be keyed out.
    pub transparent: bool,
}

/// The entry is painted.
pub open spec fn painted_entry<L>(color: Rgba8, lab: L) -> PaletteEntry<L> {
    PaletteEntry { color, lab, transparent: false }
}

impl<L> PaletteEntry<L> {
    pub fn opaque(color: Rgba8, lab: L) -> (e: Self)
        ensures
            e == painted_entry(color, lab),
    {
        PaletteEntry { color, lab, transparent: false }
    }
}

/// The two entries of a black-and-white palette: the mean of the dark pixels,
/// then that of the light ones, the other way round when inverted.
pub fn binary_entries<L>(
    dark: (Rgba8, L),
    light: (Rgba8, L),
    invert: bool,
) -> (entries: Vec<PaletteEntry<L>>)
    ensures
        entries@ == (if invert {
            seq![painted_entry(light.0, light.1), painted_entry(dark.0, dark.1)]
        } else {
            seq![painted_entry(dark.0, dark.1), painted_entry(light.0, light.1)]
        }),
{
    let mut entries: Vec<PaletteEntry<L>> = Vec::new();
    if invert {
        entries.push(PaletteEntry::opaque(light.0, light.1));
        entries.push(PaletteEntry::opaque(dark.0, dark.1));
    } else {
        entries.push(PaletteEntry::opaque(dark.0, dark.1));
        entries.push(PaletteEntry::opaque(light.0, light.1));
    }
    entries
}

/// The result of palette extraction.
pub struct Palette<L> {
    pub entries: Vec<PaletteEntry<L>>,
    /// Index of the entry that stands for pixels below the alpha threshold, if
    /// the image had any. It has no colour of its own, so it never takes part
    /// in nearest-colour matching. Colour-keyed transparent entries are not
    /// this: they are real colours, matched normally, and merely flagged.
    pub alpha_slot: Option<usize>,
}

/// A distance that no match reaches.
pub const UNREACHABLE: u32 = 0x7f80_0000;

/// Entry `i` may be matched at distance `dist[i]`.
pub open spec fn matchable(dist: Seq<u32>, alpha_slot: Option<usize>, i: int) -> bool {
    0 <= i < dist.len() && alpha_slot != Some(i as usize) && dist[i] < UNREACHABLE
}

/// `best` is the first of the closest entries, 0 where none can be matched.
pub open spec fn is_nearest(dist: Seq<u32>, alpha_slot: Option<usize>, best: usize) -> bool {
    if exists|i: int| matchable(dist, alpha_slot, i) {
        &&& matchable(dist, alpha_slot, best as int)
        &&& forall|i: int|
            #[trigger] matchable(dist, alpha_slot, i) ==> dist[best as int] < dist[i] || (
            dist[best as int] == dist[i] && best <= i)
    } else {
        best == 0
    }
}

impl<L> Palette<L> {
    pub fn len(&self) -> (n: usize)
        ensures
            n == self.entries@.len(),
    {
        self.entries.len()
    }

    pub fn is_empty(&self) -> (b: bool)
        ensures
            b == (self.entries@.len() == 0),
    {
        self.entries.len() == 0
    }

    /// Whether pixels assigned to entry `i` are left unpainted.
    pub fn is_transparent(&self, i: usize) -> (b: bool)
        requires
            i < self.entries@.len(),
        ensures
            b == self.entries@[i as int].transparent,
    {
        self.entries[i].transparent
    }
}

/// How far the colour `lab` is from each entry.
pub open spec fn distances<L, D: Fn(L, L) -> u32>(
    dist: D,
    entries: Seq<PaletteEntry<L>>,
    lab: L,
) -> Seq<u32> {
    Seq::new(entries.len(), |i: int| value2(dist, entries[i].lab, lab))
}

impl<L: Copy> Palette<L> {
    /// Nearest entry to a colour. The alpha slot is excluded; callers handle it
    /// before reaching here. Distances are non-negative single-precision numbers
    /// by their bit patterns, which order as the numbers do; infinity and what
    /// is not a number match nothing.
    pub fn nearest<D: Fn(L, L) -> u32>(&self, dist: &D, lab: L) -> (best: usize)
        requires
            pure2(*dist),
        ensures
            is_nearest(distances(*dist, self.entries@, lab), self.alpha_slot, best),
            self.entries@.len() > 0 ==> best < self.entries@.len(),
    {
        let ghost far = distances(*dist, self.entries@, lab);
        let mut best: usize = 0;
        let mut best_d: u32 = UNREACHABLE;
        let mut i: usize = 0;
        while i < self.entries.len()
            invariant
                pure2(*dist),
                far == distances(*dist, self.entries@, lab),
                i <= self.entries@.len(),
                best_d <= UNREACHABLE,
                best_d == UNREACHABLE ==> best == 0 && forall|j: int|
                    0 <= j < i ==> !#[trigger] matchable(far, self.alpha_slot, j),
                best_d < UNREACHABLE ==> best < i && matchable(far, self.alpha_slot, best as int)
                    && far[best as int] == best_d && forall|j: int|
                    0 <= j < i && #[trigger] matchable(far, self.alpha_slot, j) ==> best_d
                        < far[j] || (best_d == far[j] && best <= j),
            decreases self.entries@.len() - i,
        {
            let skip: bool = match self.alpha_slot {
                Some(s) => s == i,
                None => false,
            };
            if !skip {
                let d: u32 = call2(dist, self.entries[i].lab, lab);
                if d < best_d {
                    assert(matchable(far, self.alpha_slot, i as int));
                    best_d = d;
                    best = i;
                }
            }
            i = i + 1;
        }
        best
    }

    /// The label of one pixel: the alpha slot where there is one and the pixel's
    /// alpha does not exceed the threshold, else the nearest entry.
    pub open spec fn is_label<D: Fn(L, L) -> u32>(
        &self,
        dist: D,
        below_threshold: bool,
        lab: L,
        label: u32,
    ) -> bool {
        if below_threshold && self.alpha_slot is Some {
            label == self.alpha_slot->0
        } else {
            is_nearest(distances(dist, self.entries@, lab), self.alpha_slot, label as usize)
        }
    }

    /// See [`Palette::is_label`].
    pub fn assign_label<D: Fn(L, L) -> u32>(&self, dist: &D, below_threshold: bool, lab: L) -> (label:
        u32)
        requires
            pure2(*dist),
            0 < self.entries@.len() <= u32::MAX,
            self.alpha_slot matches Some(s) ==> s < self.entries@.len(),
        ensures
            self.is_label(*dist, below_threshold, lab, label),
            label < self.entries@.len(),
    {
        if let Some(s) = self.alpha_slot {
            if below_threshold {
                return s as u32;
            }
        }
        self.nearest(dist, lab) as u32
    }

    /// Assign every pixel to its nearest palette entry. `clear` tells whether a
    /// pixel's alpha is at or below the threshold, and `lab_of` gives its colour.
    pub fn assign_labels<
        C: Copy,
        A: Fn(C) -> bool,
        F: Fn(C) -> L,
        D: Fn(L, L) -> u32,
    >(&self, clear: &A, lab_of: &F, dist: &D, data: &Vec<C>) -> (labels: Vec<u32>)
        requires
            pure1(*clear),
            pure1(*lab_of),
            pure2(*dist),
            0 < self.entries@.len() <= u32::MAX,
            self.alpha_slot matches Some(s) ==> s < self.entries@.len(),
        ensures
            labels@.len() == data@.len(),
            forall|i: int|
                0 <= i < data@.len() ==> self.is_label(
                    *dist,
                    value1(*clear, data@[i]),
                    value1(*lab_of, data@[i]),
                    #[trigger] labels@[i],
                ) && labels@[i] < self.entries@.len(),
    {
        let mut labels: Vec<u32> = Vec::new();
        let mut i: usize = 0;
        while i < data.len()
            invariant
                pure1(*clear),
                pure1(*lab_of),
                pure2(*dist),
                0 < self.entries@.len() <= u32::MAX,
                self.alpha_slot matches Some(s) ==> s < self.entries@.len(),
                i <= data@.len(),
                labels@.len() == i,
                forall|j: int|
                    0 <= j < i ==> self.is_label(
                        *dist,
                        value1(*clear, data@[j]),
                        value1(*lab_of, data@[j]),
                        #[trigger] labels@[j],
                    ) && labels@[j] < self.entries@.len(),
            decreases data@.len() - i,
        {
            let c: C = data[i];
            let below: bool = call1(clear, c);
            labels.push(self.assign_label(dist, below, call1(lab_of, c)));
            i = i + 1;
        }
        labels
    }
}

// ---- Keyed colours ------------------------------------------------------

/// One of the entries is close to `lab`.
pub open spec fn any_near<L, N: Fn(L, L) -> bool>(
    near: N,
    entries: Seq<PaletteEntry<L>>,
    lab: L,
) -> bool {
    exists|i: int| 0 <= i < entries.len() && value2(near, (#[trigger] entries[i]).lab, lab)
}

/// The entries with those flagged that are close to `lab`.
pub open spec fn flag_near<L, N: Fn(L, L) -> bool>(
    near: N,
    entries: Seq<PaletteEntry<L>>,
    lab: L,
) -> Seq<PaletteEntry<L>> {
    Seq::new(
        entries.len(),
        |i: int|
            PaletteEntry {
                transparent: entries[i].transparent || value2(near, entries[i].lab, lab),
                ..entries[i]
            },
    )
}

/// The entry added for a key colour that nothing is close to.
pub open spec fn key_entry<L>(key: Rgba8, lab: L) -> PaletteEntry<L> {
    PaletteEntry {
        color: Rgba8 { r: key.r, g: key.g, b: key.b, a: 255 },
        lab,
        transparent: true,
    }
}

/// The entries once the first `k` key colours have been looked at: every entry
/// close to one is flagged, and a key colour that no entry is close to is added
/// as a flagged entry of its own.
pub open spec fn keyed<L, F: Fn(Rgba8) -> L, N: Fn(L, L) -> bool>(
    lab_of: F,
    near: N,
    entries: Seq<PaletteEntry<L>>,
    keys: Seq<Rgba8>,
    k: int,
) -> Seq<PaletteEntry<L>>
    decreases k,
{
    if k <= 0 {
        entries
    } else {
        let before = keyed(lab_of, near, entries, keys, k - 1);
        let lab = value1(lab_of, keys[k - 1]);
        let flagged = flag_near(near, before, lab);
        if any_near(near, before, lab) {
            flagged
        } else {
            flagged.push(key_entry(keys[k - 1], lab))
        }
    }
}

/// Flag the palette entries that stand for the key colours. `near` tells whether
/// an entry is within the tolerance of a key.
///
/// Every entry close to a key is flagged, not just the nearest: clustering can
/// split one flat background into two entries, and leaving one of them painted
/// would put a ghost of the background back. A key that no entry is close to is
/// added as its own flagged entry, which keeps the option from silently doing
/// nothing when the clustering never found the colour.
pub fn mark_transparent_colors<L: Copy, F: Fn(Rgba8) -> L, N: Fn(L, L) -> bool>(
    lab_of: &F,
    near: &N,
    entries: &mut Vec<PaletteEntry<L>>,
    keys: &Vec<Rgba8>,
)
    requires
        pure1(*lab_of),
        pure2(*near),
    ensures
        final(entries)@ == keyed(*lab_of, *near, old(entries)@, keys@, keys@.len() as int),
{
    let ghost e0 = entries@;
    let mut k: usize = 0;
    while k < keys.len()
        invariant
            pure1(*lab_of),
            pure2(*near),
            k <= keys@.len(),
            entries@ == keyed(*lab_of, *near, e0, keys@, k as int),
        decreases keys@.len() - k,
    {
        let ghost before = entries@;
        let key: Rgba8 = keys[k];
        let lab: L = call1(lab_of, key);
        let mut matched: bool = false;
        let mut j: usize = 0;
        while j < entries.len()
            invariant
                pure2(*near),
                j <= entries@.len(),
                entries@.len() == before.len(),
                matched <==> exists|q: int|
                    0 <= q < j && value2(*near, (#[trigger] before[q]).lab, lab),
                forall|q: int|
                    0 <= q < j ==> #[trigger] entries@[q] == flag_near(*near, before, lab)[q],
                forall|q: int| j <= q < before.len() ==> #[trigger] entries@[q] == before[q],
            decreases entries@.len() - j,
        {
            let e: PaletteEntry<L> = entries[j];
            assert(e == before[j as int]);
            if call2(near, e.lab, lab) {
                entries.set(j, PaletteEntry { color: e.color, lab: e.lab, transparent: true });
                matched = true;
            }
            j = j + 1;
        }
        assert(entries@ =~= flag_near(*near, before, lab));
        assert(matched <==> any_near(*near, before, lab));
        if !matched {
            entries.push(
                PaletteEntry { color: Rgba8::opaque(key.r, key.g, key.b), lab, transparent: true },
            );
        }
        k = k + 1;
    }
}

/// `palette` is made of `entries`, with `keys` flagged and a slot for transparent
/// pixels where there are any.
pub open spec fn is_finished<L, F: Fn(Rgba8) -> L, N: Fn(L, L) -> bool>(
    lab_of: F,
    near: N,
    entries: Seq<PaletteEntry<L>>,
    keys: Seq<Rgba8>,
    has_alpha: bool,
    black: L,
    palette: Palette<L>,
) -> bool {
    let marked = keyed(lab_of, near, populated(entries, black), keys, keys.len() as int);
    if has_alpha {
        &&& palette.entries@ == marked.push(
            PaletteEntry { color: Rgba8::transparent(), lab: black, transparent: true },
        )
        &&& palette.alpha_slot == Some(marked.len() as usize)
    } else {
        &&& palette.entries@ == marked
        &&& palette.alpha_slot == None::<usize>
    }
}

/// Turn the clustered entries into a palette. An empty palette gets one black
/// entry, the key colours are flagged, and where the image has transparent
/// pixels a slot for them comes last.
pub fn finish_palette<L: Copy, F: Fn(Rgba8) -> L, N: Fn(L, L) -> bool>(
    lab_of: &F,
    near: &N,
    entries: Vec<PaletteEntry<L>>,
    keys: &Vec<Rgba8>,
    has_alpha: bool,
    black: L,
) -> (palette: Palette<L>)
    requires
        pure1(*lab_of),
        pure2(*near),
    ensures
        is_finished(*lab_of, *near, entries@, keys@, has_alpha, black, palette),
        palette.entries@.len() > 0,
        palette.alpha_slot matches Some(s) ==> s == palette.entries@.len() - 1
            && palette.entries@[s as int].transparent && palette.entries@[s as int].color
            == Rgba8::transparent(),
{
    let ghost given = entries@;
    let mut entries: Vec<PaletteEntry<L>> = entries;
    if entries.len() == 0 {
        entries.push(PaletteEntry::opaque(Rgba8::opaque(0, 0, 0), black));
    }
    assert(entries@ =~= populated(given, black));
    mark_transparent_colors(lab_of, near, &mut entries, keys);
    proof {
        law_keying_only_flags(
            *lab_of,
            *near,
            populated(given, black),
            keys@,
            keys@.len() as int,
        );
    }
    let mut alpha_slot: Option<usize> = None;
    if has_alpha {
        alpha_slot = Some(entries.len());
        entries.push(
            PaletteEntry { color: Rgba8::transparent(), lab: black, transparent: true },
        );
    }
    Palette { entries, alpha_slot }
}

/// The entries, or one black entry where there is none.
pub open spec fn populated<L>(entries: Seq<PaletteEntry<L>>, black: L) -> Seq<PaletteEntry<L>> {
    if entries.len() == 0 {
        seq![painted_entry(Rgba8 { r: 0, g: 0, b: 0, a: 255 }, black)]
    } else {
        entries
    }
}

/// Keying colours out never unflags an entry and never removes or moves one.
pub proof fn law_keying_only_flags<L, F: Fn(Rgba8) -> L, N: Fn(L, L) -> bool>(
    lab_of: F,
    near: N,
    entries: Seq<PaletteEntry<L>>,
    keys: Seq<Rgba8>,
    k: int,
)
    requires
        0 <= k <= keys.len(),
    ensures
        ({
            let out = keyed(lab_of, near, entries, keys, k);
            &&& entries.len() <= out.len() <= entries.len() + k
            &&& forall|i: int|
                0 <= i < entries.len() ==> (#[trigger] out[i]).color == entries[i].color
                    && out[i].lab == entries[i].lab && (entries[i].transparent
                    ==> out[i].transparent)
            &&& forall|i: int|
                entries.len() <= i < out.len() ==> (#[trigger] out[i]).transparent
        }),
    decreases k,
{
    if k > 0 {
        law_keying_only_flags(lab_of, near, entries, keys, k - 1);
        let e = keyed(lab_of, near, entries, keys, k - 1);
        let flagged = flag_near(near, e, value1(lab_of, keys[k - 1]));
        let out = keyed(lab_of, near, entries, keys, k);
        assert forall|i: int| 0 <= i < entries.len() implies (#[trigger] out[i]).color
            == entries[i].color && out[i].lab == entries[i].lab && (entries[i].transparent
            ==> out[i].transparent) by {
            assert(out[i] == flagged[i]);
            assert(e[i].color == entries[i].color);
        }
        assert forall|i: int| entries.len() <= i < out.len() implies (
        #[trigger] out[i]).transparent by {
            if i < e.len() {
                assert(out[i] == flagged[i]);
                assert(e[i].transparent);
            }
        }
    }
}

/// Entry `e` leaves the colour `lab` out: it is flagged, and close to it or made
/// for it.
pub open spec fn leaves_out<L, N: Fn(L, L) -> bool>(near: N, e: PaletteEntry<L>, lab: L) -> bool {
    e.transparent && (e.lab == lab || value2(near, e.lab, lab))
}

/// No key colour is ignored: when all are looked at, each has an entry that
/// leaves it out.
pub proof fn law_every_key_is_left_out<L, F: Fn(Rgba8) -> L, N: Fn(L, L) -> bool>(
    lab_of: F,
    near: N,
    entries: Seq<PaletteEntry<L>>,
    keys: Seq<Rgba8>,
    k: int,
    q: int,
)
    requires
        0 <= q < k <= keys.len(),
    ensures
        exists|i: int|
            0 <= i < keyed(lab_of, near, entries, keys, k).len() && leaves_out(
                near,
                #[trigger] keyed(lab_of, near, entries, keys, k)[i],
                value1(lab_of, keys[q]),
            ),
    decreases k,
{
    let before = keyed(lab_of, near, entries, keys, k - 1);
    let out = keyed(lab_of, near, entries, keys, k);
    let last = value1(lab_of, keys[k - 1]);
    let flagged = flag_near(near, before, last);
    let lab = value1(lab_of, keys[q]);
    if q < k - 1 {
        law_every_key_is_left_out(lab_of, near, entries, keys, k - 1, q);
        let i = choose|i: int|
            0 <= i < before.len() && leaves_out(near, #[trigger] before[i], lab);
        assert(out[i] == flagged[i]);
        assert(leaves_out(near, out[i], lab));
    } else if any_near(near, before, last) {
        let i = choose|i: int|
            0 <= i < before.len() && value2(near, (#[trigger] before[i]).lab, last);
        assert(out[i] == flagged[i]);
        assert(leaves_out(near, out[i], lab));
    } else {
        let i = flagged.len() as int;
        assert(out[i] == key_entry(keys[k - 1], last));
        assert(leaves_out(near, out[i], lab));
    }
}

} // verus!
