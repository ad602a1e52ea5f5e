//! What the desktop application is waiting for, and what it does with what
//! arrives.
//!
//! Results carry the generation they were computed for, and anything stale is
//! discarded, so a slow trace finishing after the user has moved on can never
//! overwrite fresher output. Times are in milliseconds on some steady clock.

use crate::color::Rgba8;
use crate::config::{
    copy_colors, extension_of, preset_settings, Preset, SegmentSettings, Settings, VectorFormat,
    VectorizeConfig,
};
use crate::model::Shape;
use crate::raster::{lemma_cell, Raster};
use crate::text::push_text;
use vstd::prelude::*;

verus! {

/// Time to wait after the last parameter change before re-tracing, in
/// milliseconds. Long enough that dragging a slider does not start a trace per
/// frame, short enough that the preview still feels attached to the control.
pub const DEBOUNCE: u64 = 220;

#[derive(Clone, Copy, Debug, PartialEq, Eq, Structural)]
pub struct Session {
    /// The generation whose result is wanted.
    pub awaiting: Option<u64>,
    /// The generation of the search in flight.
    pub auto_generation: Option<u64>,
    /// When the settings last changed without a trace having been started.
    pub dirty_since: Option<u64>,
}

/// Whether the wait after a change at `t` is over.
pub open spec fn wait_over(t: u64, now: u64) -> bool {
    now - t >= DEBOUNCE
}

impl Session {
    pub fn new() -> (s: Session)
        ensures
            s == (Session { awaiting: None, auto_generation: None, dirty_since: None }),
    {
        Session { awaiting: None, auto_generation: None, dirty_since: None }
    }

    /// The settings changed.
    pub fn mark_dirty(&mut self, now: u64)
        ensures
            *final(self) == (Session { dirty_since: Some(now), ..*old(self) }),
    {
        self.dirty_since = Some(now);
    }

    /// Force the pending trace to start now instead of after the debounce.
    pub fn flush_debounce(&mut self, now: u64)
        requires
            now >= DEBOUNCE + 10,
        ensures
            *final(self) == (Session {
                dirty_since: if old(self).dirty_since is Some {
                    Some((now - DEBOUNCE - 10) as u64)
                } else {
                    None
                },
                ..*old(self)
            }),
    {
        if self.dirty_since.is_some() {
            self.dirty_since = Some(now - DEBOUNCE - 10);
        }
    }

    /// Whether a trace is to be submitted now. The wait must be over, and there
    /// must be an image; without one the change is forgotten.
    pub fn maybe_trace(&mut self, now: u64, has_source: bool) -> (start: bool)
        ensures
            start == (has_source && old(self).due(now)),
            *final(self) == (Session {
                dirty_since: if old(self).due(now) {
                    None
                } else {
                    old(self).dirty_since
                },
                ..*old(self)
            }),
    {
        match self.dirty_since {
            None => false,
            Some(t) => if now < t || now - t < DEBOUNCE {
                false
            } else {
                self.dirty_since = None;
                has_source
            },
        }
    }

    /// Whether there is a change and the wait after it is over.
    pub open spec fn due(&self, now: u64) -> bool {
        self.dirty_since matches Some(t) && wait_over(t, now)
    }

    /// A trace was submitted as `generation`. A search that was in flight is
    /// superseded by it.
    pub fn trace_submitted(&mut self, generation: u64)
        ensures
            *final(self) == (Session {
                awaiting: Some(generation),
                auto_generation: None,
                ..*old(self)
            }),
    {
        self.awaiting = Some(generation);
        self.auto_generation = None;
    }

    /// A search was submitted as `generation`.
    pub fn auto_submitted(&mut self, generation: u64)
        ensures
            *final(self) == (Session {
                awaiting: Some(generation),
                auto_generation: Some(generation),
                ..*old(self)
            }),
    {
        self.auto_generation = Some(generation);
        self.awaiting = Some(generation);
    }

    /// A trace arrived. Only the generation currently awaited is wanted; anything
    /// else was already superseded before it finished.
    pub fn traced(&mut self, generation: u64) -> (accept: bool)
        ensures
            accept == (old(self).awaiting == Some(generation)),
            *final(self) == (Session {
                awaiting: if accept {
                    None
                } else {
                    old(self).awaiting
                },
                ..*old(self)
            }),
    {
        match self.awaiting {
            Some(g) => if g == generation {
                self.awaiting = None;
                true
            } else {
                false
            },
            None => false,
        }
    }

    /// A search ended. Only one that is still awaited counts; its result is
    /// adopted and traced. Anything else was superseded before it finished.
    pub fn auto_done(&mut self, generation: u64, now: u64) -> (accept: bool)
        ensures
            accept == (old(self).auto_generation == Some(generation) && old(self).awaiting == Some(
                generation,
            )),
            *final(self) == if accept {
                Session { awaiting: None, auto_generation: None, dirty_since: Some(now) }
            } else {
                *old(self)
            },
    {
        match (self.auto_generation, self.awaiting) {
            (Some(g), Some(h)) => if g == generation && h == generation {
                self.auto_generation = None;
                self.awaiting = None;
                self.dirty_since = Some(now);
                true
            } else {
                false
            },
            _ => false,
        }
    }

    /// A job failed.
    pub fn failed(&mut self, generation: u64)
        ensures
            *final(self) == (Session {
                awaiting: if old(self).awaiting == Some(generation) {
                    None
                } else {
                    old(self).awaiting
                },
                ..*old(self)
            }),
    {
        if let Some(g) = self.awaiting {
            if g == generation {
                self.awaiting = None;
            }
        }
    }

    /// True while a trace is queued or running.
    pub fn is_working(&self, busy: bool) -> (b: bool)
        ensures
            b == (self.dirty_since is Some || self.awaiting is Some || busy),
    {
        self.dirty_since.is_some() || self.awaiting.is_some() || busy
    }

    /// Whether what is awaited is the latest of `submitted` jobs.
    pub open spec fn current(&self, submitted: u64) -> bool {
        &&& self.awaiting matches Some(g) ==> g == submitted
        &&& self.auto_generation matches Some(g) ==> g <= submitted
    }
}

// ---- Laws ---------------------------------------------------------------

/// Something that happens to a session.
pub ghost enum Event {
    Edit { now: u64 },
    Flush { now: u64 },
    /// A trace is submitted as the next generation.
    Trace,
    /// A search is submitted as the next generation.
    Auto,
    Traced { generation: u64 },
    AutoDone { generation: u64, now: u64 },
    Failed { generation: u64 },
}

/// The session and the number of submitted jobs after an event.
pub open spec fn after(s: Session, submitted: u64, e: Event) -> (Session, u64) {
    let next = (submitted + 1) as u64;
    match e {
        Event::Edit { now } => (Session { dirty_since: Some(now), ..s }, submitted),
        Event::Flush { now } => (
            Session {
                dirty_since: if s.dirty_since is Some {
                    Some((now - DEBOUNCE - 10) as u64)
                } else {
                    None
                },
                ..s
            },
            submitted,
        ),
        Event::Trace => (
            Session { awaiting: Some(next), auto_generation: None, dirty_since: None },
            next,
        ),
        Event::Auto => (
            Session { awaiting: Some(next), auto_generation: Some(next), ..s },
            next,
        ),
        Event::Traced { generation } => (
            if s.awaiting == Some(generation) {
                Session { awaiting: None, ..s }
            } else {
                s
            },
            submitted,
        ),
        Event::AutoDone { generation, now } => (
            if s.auto_generation == Some(generation) && s.awaiting == Some(generation) {
                Session { awaiting: None, auto_generation: None, dirty_since: Some(now) }
            } else {
                s
            },
            submitted,
        ),
        Event::Failed { generation } => (
            if s.awaiting == Some(generation) {
                Session { awaiting: None, ..s }
            } else {
                s
            },
            submitted,
        ),
    }
}

/// The session and the number of submitted jobs after a run of events.
pub open spec fn after_all(s: Session, submitted: u64, events: Seq<Event>) -> (Session, u64)
    decreases events.len(),
{
    if events.len() == 0 {
        (s, submitted)
    } else {
        let (t, n) = after_all(s, submitted, events.drop_last());
        after(t, n, events.last())
    }
}

/// After any run of events, what a session awaits is the job submitted last: a
/// trace or a search that is accepted comes from the latest request, and every
/// other one is discarded.
pub proof fn law_only_the_latest_request_is_awaited(events: Seq<Event>)
    requires
        events.len() < u64::MAX,
    ensures
        ({
            let start = Session { awaiting: None, auto_generation: None, dirty_since: None };
            let (s, submitted) = after_all(start, 0, events);
            &&& s.current(submitted)
            &&& submitted <= events.len()
            &&& forall|generation: u64|
                generation != submitted ==> #[trigger] after(
                    s,
                    submitted,
                    Event::Traced { generation },
                ).0 == s
            &&& forall|generation: u64, now: u64|
                generation != submitted ==> #[trigger] after(
                    s,
                    submitted,
                    Event::AutoDone { generation, now },
                ).0 == s
        }),
    decreases events.len(),
{
    if events.len() > 0 {
        law_only_the_latest_request_is_awaited(events.drop_last());
    }
}

/// Failures and stale results, of traces and of searches, never start or cancel
/// anything else: what is awaited still is, and the settings that wait to be traced
/// still do.
pub proof fn law_stale_results_change_nothing(
    s: Session,
    submitted: u64,
    generation: u64,
    now: u64,
)
    requires
        s.awaiting != Some(generation),
    ensures
        after(s, submitted, Event::Traced { generation }).0 == s,
        after(s, submitted, Event::AutoDone { generation, now }).0 == s,
        after(s, submitted, Event::Failed { generation }).0 == s,
{
}

// ---- Settings -----------------------------------------------------------

/// The settings after switching to preset `p`. A preset is a starting point for
/// how to trace, not for what to leave out or where to save, so those survive
/// the switch.
pub open spec fn switched(s: Settings, p: Preset) -> Settings {
    let base = preset_settings(p);
    Settings {
        segment: SegmentSettings {
            transparent_colors: s.segment.transparent_colors,
            transparent_tolerance: s.segment.transparent_tolerance,
            ..base.segment
        },
        output: crate::config::OutputConfig { format: s.output.format, ..base.output },
        ..base
    }
}

/// Switch to a preset.
pub fn apply_preset(config: &mut VectorizeConfig, preset: Preset)
    ensures
        final(config)@ == switched(old(config)@, preset),
{
    let format: VectorFormat = config.output.format;
    let keyed: Vec<Rgba8> = copy_colors(&config.segment.transparent_colors);
    let tolerance: i64 = config.segment.transparent_tolerance;
    let mut next: VectorizeConfig = preset.config();
    next.output.format = format;
    next.segment.transparent_colors = keyed;
    next.segment.transparent_tolerance = tolerance;
    *config = next;
}

/// Switching presets keeps the colours to leave out, their tolerance and the
/// output format, and switching twice is switching to the second.
pub proof fn law_switching_keeps_the_request(s: Settings, p: Preset, q: Preset)
    ensures
        switched(s, p).segment.transparent_colors == s.segment.transparent_colors,
        switched(s, p).segment.transparent_tolerance == s.segment.transparent_tolerance,
        switched(s, p).output.format == s.output.format,
        switched(switched(s, p), q) == switched(s, q),
{
}

/// The colour to offer for leaving out: the image's top-left pixel, which is
/// usually the background, or white where that pixel is mostly transparent.
pub open spec fn suggestion(image: Option<Raster<Rgba8>>) -> Rgba8 {
    match image {
        Some(r) => {
            if r.width > 0 && r.height > 0 && r.pixel(0, 0).a >= 128 {
                Rgba8 { r: r.pixel(0, 0).r, g: r.pixel(0, 0).g, b: r.pixel(0, 0).b, a: 255 }
            } else {
                Rgba8 { r: 255, g: 255, b: 255, a: 255 }
            }
        },
        None => Rgba8 { r: 255, g: 255, b: 255, a: 255 },
    }
}

pub fn suggested_transparent_color(image: Option<&Raster<Rgba8>>) -> (c: Rgba8)
    requires
        image matches Some(r) ==> r.wf(),
    ensures
        c == match image {
            Some(r) => suggestion(Some(*r)),
            None => suggestion(None),
        },
{
    if let Some(r) = image {
        if r.width > 0 && r.height > 0 {
            proof {
                lemma_cell(0, 0, r.width as int, r.height as int);
            }
            let c: Rgba8 = r.pixel_rgba8(0, 0);
            if c.a >= 128 {
                return Rgba8 { r: c.r, g: c.g, b: c.b, a: 255 };
            }
        }
    }
    Rgba8 { r: 255, g: 255, b: 255, a: 255 }
}

/// The name to offer for an exported file: the image's own, or `traced`, with
/// the format's extension.
pub open spec fn offered_name(stem: Option<Seq<char>>, format: VectorFormat) -> Seq<char> {
    match stem {
        Some(s) => s + "."@ + extension_of(format),
        None => "traced"@ + "."@ + extension_of(format),
    }
}

pub fn export_name(stem: Option<&str>, format: VectorFormat) -> (s: String)
    ensures
        s@ == offered_name(
            match stem {
                Some(t) => Some(t@),
                None => None,
            },
            format,
        ),
{
    let mut s: String = String::new();
    match stem {
        Some(t) => push_text(&mut s, t),
        None => push_text(&mut s, "traced"),
    }
    push_text(&mut s, ".");
    push_text(&mut s, format.extension());
    assert(s@ =~= offered_name(
        match stem {
            Some(t) => Some(t@),
            None => None,
        },
        format,
    ));
    s
}

// ---- Views --------------------------------------------------------------

#[derive(Clone, Copy, Debug, PartialEq, Eq, Structural)]
pub enum ViewMode {
    Original,
    Vector,
    SideBySide,
    Wipe,
    Difference,
}

/// A picture that a view shows.
#[derive(Clone, Copy, Debug, PartialEq, Eq, Structural)]
pub enum Picture {
    Original,
    Vector,
    Difference,
}

pub open spec fn mode_label(m: ViewMode) -> Seq<char> {
    match m {
        ViewMode::Original => "Original"@,
        ViewMode::Vector => "Vector"@,
        ViewMode::SideBySide => "Side by side"@,
        ViewMode::Wipe => "Wipe"@,
        ViewMode::Difference => "Difference"@,
    }
}

/// The pictures of a view, from left to right, and whether a checkerboard
/// stands behind them so that transparent regions read as transparent rather
/// than as white.
pub open spec fn pictures_of(m: ViewMode) -> (Seq<Picture>, bool) {
    match m {
        ViewMode::Original => (seq![Picture::Original], true),
        ViewMode::Vector => (seq![Picture::Vector], true),
        ViewMode::SideBySide => (seq![Picture::Original, Picture::Vector], true),
        ViewMode::Wipe => (seq![Picture::Original, Picture::Vector], true),
        ViewMode::Difference => (seq![Picture::Difference], false),
    }
}

impl ViewMode {
    pub fn label(self) -> (s: &'static str)
        ensures
            s@ == mode_label(self),
    {
        match self {
            ViewMode::Original => "Original",
            ViewMode::Vector => "Vector",
            ViewMode::SideBySide => "Side by side",
            ViewMode::Wipe => "Wipe",
            ViewMode::Difference => "Difference",
        }
    }

    /// Every view, in the order they are offered.
    pub fn all() -> (v: [ViewMode; 5])
        ensures
            v@ == seq![
                ViewMode::Original,
                ViewMode::Vector,
                ViewMode::SideBySide,
                ViewMode::Wipe,
                ViewMode::Difference,
            ],
    {
        let v: [ViewMode; 5] = [
            ViewMode::Original,
            ViewMode::Vector,
            ViewMode::SideBySide,
            ViewMode::Wipe,
            ViewMode::Difference,
        ];
        assert(v@ =~= seq![
            ViewMode::Original,
            ViewMode::Vector,
            ViewMode::SideBySide,
            ViewMode::Wipe,
            ViewMode::Difference,
        ]);
        v
    }

    /// What this view shows.
    pub fn pictures(self) -> (p: (Vec<Picture>, bool))
        ensures
            (p.0@, p.1) == pictures_of(self),
    {
        let mut list: Vec<Picture> = Vec::new();
        match self {
            ViewMode::Original => list.push(Picture::Original),
            ViewMode::Vector => list.push(Picture::Vector),
            ViewMode::SideBySide => {
                list.push(Picture::Original);
                list.push(Picture::Vector);
            },
            ViewMode::Wipe => {
                list.push(Picture::Original);
                list.push(Picture::Vector);
            },
            ViewMode::Difference => list.push(Picture::Difference),
        }
        let checker: bool = match self {
            ViewMode::Difference => false,
            _ => true,
        };
        assert(list@ =~= pictures_of(self).0);
        (list, checker)
    }
}

/// No two views share a label.
pub proof fn law_labels_are_distinct(a: ViewMode, b: ViewMode)
    requires
        mode_label(a) == mode_label(b),
    ensures
        a == b,
{
    reveal_strlit("Original");
    reveal_strlit("Vector");
    reveal_strlit("Side by side");
    reveal_strlit("Wipe");
    reveal_strlit("Difference");
    // Lengths tell all of them apart.
    assert("Original"@.len() == 8);
    assert("Vector"@.len() == 6);
    assert("Side by side"@.len() == 12);
    assert("Wipe"@.len() == 4);
    assert("Difference"@.len() == 10);
}

// ---- Swatches -----------------------------------------------------------

/// How many colours of a result are shown.
pub const MAX_SWATCHES: usize = 64;

/// The colours of some shapes, each once, in the order in which they first occur.
pub open spec fn distinct_colors<P, S>(shapes: Seq<Shape<P, S>>) -> Seq<Rgba8>
    decreases shapes.len(),
{
    if shapes.len() == 0 {
        seq![]
    } else {
        let rest = distinct_colors(shapes.drop_last());
        if rest.contains(shapes.last().color) {
            rest
        } else {
            rest.push(shapes.last().color)
        }
    }
}

/// The first colours of a result.
pub fn swatches<P, S>(shapes: &Vec<Shape<P, S>>) -> (out: Vec<Rgba8>)
    ensures
        out@ == if distinct_colors(shapes@).len() <= MAX_SWATCHES {
            distinct_colors(shapes@)
        } else {
            distinct_colors(shapes@).take(MAX_SWATCHES as int)
        },
{
    let mut seen: Vec<Rgba8> = Vec::new();
    let mut k: usize = 0;
    assert(shapes@.take(0) =~= Seq::<Shape<P, S>>::empty());
    while k < shapes.len()
        invariant
            k <= shapes@.len(),
            seen@ == distinct_colors(shapes@.take(k as int)),
        decreases shapes@.len() - k,
    {
        let c: Rgba8 = shapes[k].color;
        let mut at: usize = 0;
        while at < seen.len() && seen[at] != c
            invariant
                at <= seen@.len(),
                forall|j: int| 0 <= j < at ==> #[trigger] seen@[j] != c,
            decreases seen@.len() - at,
        {
            at = at + 1;
        }
        assert(seen@.contains(c) <==> at < seen@.len()) by {
            if at < seen@.len() {
                assert(seen@[at as int] == c);
            }
        }
        assert(shapes@.take(k + 1).drop_last() =~= shapes@.take(k as int));
        assert(shapes@.take(k + 1).last() == shapes@[k as int]);
        if at == seen.len() {
            seen.push(c);
        }
        k = k + 1;
    }
    assert(shapes@.take(k as int) =~= shapes@);
    if seen.len() > MAX_SWATCHES {
        seen.truncate(MAX_SWATCHES);
    }
    seen
}

// ---- What is offered and shown ------------------------------------------

/// The colour that is offered for leaving out is that of the first pixel, made opaque, where
/// that pixel is at least half opaque, and else white.
pub proof fn law_the_first_pixel_is_offered(r: Raster<Rgba8>)
    requires
        r.wf(),
        r.width > 0,
        r.height > 0,
    ensures
        ({
            let c = suggestion(Some(r));
            let first = r.data@[0];
            &&& c.a == 255
            &&& first.a > 127 ==> c.r == first.r && c.g == first.g && c.b == first.b
            &&& first.a <= 127 ==> c.r == 255 && c.g == 255 && c.b == 255
        }),
{
    assert(0 * r.width == 0);
}

/// The colours of a result are those of its shapes, each once, in the order in which they
/// first occur.
pub proof fn law_swatches_are_the_colors_of_the_shapes<P, S>(shapes: Seq<Shape<P, S>>)
    ensures
        forall|i: int|
            0 <= i < shapes.len() ==> distinct_colors(shapes).contains(
                (#[trigger] shapes[i]).color,
            ),
        forall|a: int, b: int|
            0 <= a < b < distinct_colors(shapes).len() ==> #[trigger] distinct_colors(shapes)[a]
                != #[trigger] distinct_colors(shapes)[b],
        forall|a: int|
            0 <= a < distinct_colors(shapes).len() ==> exists|i: int|
                0 <= i < shapes.len() && (#[trigger] shapes[i]).color
                    == #[trigger] distinct_colors(shapes)[a],
        shapes.len() > 0 ==> distinct_colors(shapes).len() > 0 && distinct_colors(shapes)[0]
            == shapes[0].color,
    decreases shapes.len(),
{
    if shapes.len() > 0 {
        let front = shapes.drop_last();
        law_swatches_are_the_colors_of_the_shapes(front);
        let rest = distinct_colors(front);
        let all = distinct_colors(shapes);
        let c = shapes.last().color;
        if !rest.contains(c) {
            assert(all == rest.push(c));
            assert(all[rest.len() as int] == c);
        }
        assert(shapes[shapes.len() - 1].color == c);
        assert forall|i: int| 0 <= i < shapes.len() implies all.contains(
            (#[trigger] shapes[i]).color,
        ) by {
            if i < front.len() {
                assert(front[i] == shapes[i]);
                let k = choose|k: int| 0 <= k < rest.len() && rest[k] == shapes[i].color;
                assert(all[k] == shapes[i].color);
            }
        }
        assert forall|a: int| 0 <= a < all.len() implies exists|i: int|
            0 <= i < shapes.len() && (#[trigger] shapes[i]).color == #[trigger] all[a] by {
            if a < rest.len() {
                assert(all[a] == rest[a]);
                let i = choose|i: int|
                    0 <= i < front.len() && (#[trigger] front[i]).color == rest[a];
                assert(shapes[i].color == all[a]);
            } else {
                assert(shapes[shapes.len() - 1].color == all[a]);
            }
        }
    }
}

/// A trace that is submitted is awaited, and nothing is left to do for it; its own result,
/// or its failure, ends the waiting and nothing else, and the end of an automatic search
/// that was awaited asks for a trace with what it found.
pub proof fn law_awaited_results_end_the_waiting(s: Session, submitted: u64, now: u64)
    requires
        submitted < u64::MAX,
    ensures
        ({
            let (t, n) = after(s, submitted, Event::Trace);
            let done = after(t, n, Event::Traced { generation: n }).0;
            let failed = after(t, n, Event::Failed { generation: n }).0;
            &&& n == submitted + 1
            &&& t.awaiting == Some(n) && t.dirty_since is None && t.auto_generation is None
            &&& done.awaiting is None && done.dirty_since is None
            &&& failed.awaiting is None && failed.dirty_since is None
        }),
        ({
            let (t, n) = after(s, submitted, Event::Auto);
            let done = after(t, n, Event::AutoDone { generation: n, now }).0;
            &&& n == submitted + 1
            &&& t.awaiting == Some(n) && t.auto_generation == Some(n)
            &&& t.dirty_since == s.dirty_since
            &&& done.awaiting is None && done.auto_generation is None && done.dirty_since == Some(
                now,
            )
        }),
        after(s, submitted, Event::Edit { now }).0.dirty_since == Some(now),
        after(s, submitted, Event::Edit { now }).0.awaiting == s.awaiting,
        after(s, submitted, Event::Edit { now }).1 == submitted,
{
}

} // verus!
