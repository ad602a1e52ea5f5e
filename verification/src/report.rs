//! Human-readable formatting of results. Numbers that are not whole come in
//! already written out.

use crate::color::{hex_form, Rgba8};
use crate::config::{Billionths, SegmentMode, VectorizeConfig};
use crate::model::Complexity;
use crate::profile::ImageProfile;
use crate::text::{decimal, push_decimal, push_natural, push_text};
use vstd::prelude::*;
use vstd::utf8::{encode_utf8, is_ascii_chars_encode_utf8, is_char_boundary};

verus! {

// ---- Layout -------------------------------------------------------------

/// `n` copies of `c`.
pub open spec fn copies(c: char, n: nat) -> Seq<char> {
    Seq::new(n, |i: int| c)
}

/// `n` spaces less the length of `s`.
pub open spec fn padding(s: Seq<char>, n: nat) -> Seq<char> {
    if s.len() < n {
        copies(' ', (n - s.len()) as nat)
    } else {
        seq![]
    }
}

/// `s` at the left of a column of width `n`.
pub open spec fn left(s: Seq<char>, n: nat) -> Seq<char> {
    s + padding(s, n)
}

/// `s` at the right of a column of width `n`.
pub open spec fn right(s: Seq<char>, n: nat) -> Seq<char> {
    padding(s, n) + s
}

fn push_copies(s: &mut String, c: char, n: usize)
    ensures
        final(s)@ == old(s)@ + copies(c, n as nat),
{
    let ghost s0 = s@;
    let mut i: usize = 0;
    assert(s@ =~= s0 + copies(c, 0));
    while i < n
        invariant
            i <= n,
            s@ == s0 + copies(c, i as nat),
        decreases n - i,
    {
        s.push(c);
        i = i + 1;
        assert(s@ =~= s0 + copies(c, i as nat));
    }
}

fn push_padding(s: &mut String, t: &str, n: usize)
    ensures
        final(s)@ == old(s)@ + padding(t@, n as nat),
{
    let chars: Vec<char> = crate::text::chars_of(t);
    if chars.len() < n {
        push_copies(s, ' ', n - chars.len());
    } else {
        assert(s@ + padding(t@, n as nat) =~= s@);
    }
}

/// Append `t` at the left of a column of width `n`.
pub fn push_left(s: &mut String, t: &str, n: usize)
    ensures
        final(s)@ == old(s)@ + left(t@, n as nat),
{
    let ghost s0 = s@;
    push_text(s, t);
    push_padding(s, t, n);
    assert(s@ =~= s0 + left(t@, n as nat));
}

/// Append `t` at the right of a column of width `n`.
pub fn push_right(s: &mut String, t: &str, n: usize)
    ensures
        final(s)@ == old(s)@ + right(t@, n as nat),
{
    let ghost s0 = s@;
    push_padding(s, t, n);
    push_text(s, t);
    assert(s@ =~= s0 + right(t@, n as nat));
}

fn natural(n: usize) -> (s: String)
    ensures
        s@ == decimal(n as nat),
{
    let mut s: String = String::new();
    push_decimal(&mut s, n as u64);
    assert(s@ =~= decimal(n as nat));
    s
}

/// How many of `width` cells a fraction fills, to the nearest cell.
pub open spec fn filled(fraction: Billionths, width: nat) -> nat {
    let f = if fraction < 0 {
        0
    } else if fraction > 1_000_000_000 {
        1_000_000_000
    } else {
        fraction as int
    };
    ((f * width + 500_000_000) / 1_000_000_000) as nat
}

/// A bar of `#` up to the fraction and `-` past it.
pub open spec fn bar_text(fraction: Billionths, width: nat) -> Seq<char> {
    copies('#', filled(fraction, width)) + copies('-', (width - filled(fraction, width)) as nat)
}

/// A bar never overflows its width.
pub proof fn law_bars_keep_their_width(fraction: Billionths, width: nat)
    ensures
        filled(fraction, width) <= width,
        bar_text(fraction, width).len() == width,
{
    let f = if fraction < 0 {
        0
    } else if fraction > 1_000_000_000 {
        1_000_000_000
    } else {
        fraction as int
    };
    assert(0 <= f * width <= 1_000_000_000 * width) by (nonlinear_arith)
        requires
            0 <= f <= 1_000_000_000,
            0 <= width,
    ;
}

/// A bar that makes "99.1%" and "96.4%" distinguishable at a glance, which
/// plain numbers in a column are not.
pub fn bar(fraction: Billionths, width: usize) -> (s: String)
    ensures
        s@ == bar_text(fraction, width as nat),
{
    proof {
        law_bars_keep_their_width(fraction, width as nat);
    }
    let f: u128 = if fraction < 0 {
        0
    } else if fraction > 1_000_000_000 {
        1_000_000_000
    } else {
        fraction as u128
    };
    assert(0 <= f * width <= 1_000_000_000 * 0xffff_ffff_ffff_ffff) by (nonlinear_arith)
        requires
            0 <= f <= 1_000_000_000,
            0 <= width <= 0xffff_ffff_ffff_ffff,
    ;
    let full: usize = ((f * width as u128 + 500_000_000) / 1_000_000_000) as usize;
    let mut s: String = String::new();
    push_copies(&mut s, '#', full);
    push_copies(&mut s, '-', width - full);
    assert(s@ =~= bar_text(fraction, width as nat));
    s
}

/// The number of bytes of a label that are kept when it is cut to `n`.
pub open spec fn kept_bytes(n: usize) -> int {
    if n < 3 {
        0
    } else {
        n - 3
    }
}

proof fn lemma_encode_add(a: Seq<char>, b: Seq<char>)
    ensures
        encode_utf8(a + b) == encode_utf8(a) + encode_utf8(b),
    decreases a.len(),
{
    if a.len() == 0 {
        assert(a + b =~= b);
        assert(encode_utf8(a) + encode_utf8(b) =~= encode_utf8(b));
    } else {
        lemma_encode_add(a.drop_first(), b);
        assert((a + b).drop_first() =~= a.drop_first() + b);
        assert(encode_utf8(a + b) =~= encode_utf8(a) + encode_utf8(b));
    }
}

/// Cut a label to `n` bytes, the last three of which then are dots.
pub fn truncate(s: &str, n: usize) -> (t: String)
    requires
        encode_utf8(s@).len() > n ==> is_char_boundary(encode_utf8(s@), kept_bytes(n)),
    ensures
        encode_utf8(s@).len() <= n ==> t@ == s@,
        encode_utf8(s@).len() > n ==> exists|head: Seq<char>|
            {
                &&& encode_utf8(head) == encode_utf8(s@).take(kept_bytes(n))
                &&& t@ == #[trigger] (head + "..."@)
            },
        encode_utf8(s@).len() > n ==> encode_utf8(t@).len() == kept_bytes(n) + 3,
{
    let mut t: String = String::new();
    if s.as_bytes().len() <= n {
        push_text(&mut t, s);
        assert(t@ =~= s@);
    } else {
        let keep: usize = if n < 3 {
            0
        } else {
            n - 3
        };
        let parts: (&str, &str) = s.split_at(keep);
        push_text(&mut t, parts.0);
        push_text(&mut t, "...");
        assert(t@ =~= parts.0@ + "..."@);
        assert(encode_utf8(parts.0@) =~= encode_utf8(s@).take(kept_bytes(n)));
        proof {
            lemma_encode_add(parts.0@, "..."@);
            reveal_strlit("...");
            is_ascii_chars_encode_utf8("..."@);
        }
    }
    t
}

// ---- Reports ------------------------------------------------------------

/// The figures of a score that are not whole numbers, written out.
pub struct Figures {
    pub match_pct: String,
    /// Where the bar ends: the last ten percent, stretched to the whole bar.
    pub bar: Billionths,
    pub mean_delta_e: String,
    pub p95_delta_e: String,
    pub max_delta_e: String,
    pub rmse: String,
    pub psnr: String,
    pub ssim: String,
    pub size_kb: String,
    pub render_ms: String,
    pub compare_ms: String,
}

pub open spec fn match_line(f: Figures) -> Seq<char> {
    "  match   "@ + right(f.match_pct@, 6) + "%  ["@ + bar_text(f.bar, 24)
        + "]   (pixels within deltaE 2.0)\n"@
}

pub open spec fn delta_line(f: Figures) -> Seq<char> {
    "  deltaE  mean "@ + f.mean_delta_e@ + "  p95 "@ + f.p95_delta_e@ + "  max "@ + f.max_delta_e@
        + "\n"@
}

pub open spec fn error_line(f: Figures) -> Seq<char> {
    "  rmse    "@ + f.rmse@ + "   psnr "@ + f.psnr@ + " dB   ssim "@ + f.ssim@ + "\n"@
}

pub open spec fn points_line(c: Complexity) -> Seq<char> {
    "  points  "@ + decimal((c.anchors + c.handles) as nat) + " ("@ + decimal(c.anchors as nat)
        + " anchors + "@ + decimal(c.handles as nat) + " handles) in "@ + decimal(c.segments as nat)
        + " segments, "@ + decimal(c.shapes as nat) + " shapes\n"@
}

pub open spec fn size_line(f: Figures) -> Seq<char> {
    "  size    "@ + f.size_kb@ + " KB   render "@ + f.render_ms@ + " ms   compare "@ + f.compare_ms@
        + " ms"@
}

pub open spec fn report_text(f: Figures, c: Complexity) -> Seq<char> {
    match_line(f) + delta_line(f) + error_line(f) + points_line(c) + size_line(f)
}

/// A score as a few lines of text.
pub fn format_report(f: &Figures, c: &Complexity) -> (s: String)
    requires
        c.anchors + c.handles <= usize::MAX,
    ensures
        s@ == report_text(*f, *c),
{
    let mut s: String = String::new();
    push_text(&mut s, "  match   ");
    push_right(&mut s, f.match_pct.as_str(), 6);
    push_text(&mut s, "%  [");
    let cells: String = bar(f.bar, 24);
    push_text(&mut s, cells.as_str());
    push_text(&mut s, "]   (pixels within deltaE 2.0)\n");
    assert(s@ =~= match_line(*f));
    push_text(&mut s, "  deltaE  mean ");
    push_text(&mut s, f.mean_delta_e.as_str());
    push_text(&mut s, "  p95 ");
    push_text(&mut s, f.p95_delta_e.as_str());
    push_text(&mut s, "  max ");
    push_text(&mut s, f.max_delta_e.as_str());
    push_text(&mut s, "\n");
    assert(s@ =~= match_line(*f) + delta_line(*f));
    push_text(&mut s, "  rmse    ");
    push_text(&mut s, f.rmse.as_str());
    push_text(&mut s, "   psnr ");
    push_text(&mut s, f.psnr.as_str());
    push_text(&mut s, " dB   ssim ");
    push_text(&mut s, f.ssim.as_str());
    push_text(&mut s, "\n");
    assert(s@ =~= match_line(*f) + delta_line(*f) + error_line(*f));
    let ghost before = s@;
    push_text(&mut s, "  points  ");
    push_decimal(&mut s, c.total_points() as u64);
    push_text(&mut s, " (");
    push_decimal(&mut s, c.anchors as u64);
    push_text(&mut s, " anchors + ");
    push_decimal(&mut s, c.handles as u64);
    push_text(&mut s, " handles) in ");
    push_decimal(&mut s, c.segments as u64);
    push_text(&mut s, " segments, ");
    push_decimal(&mut s, c.shapes as u64);
    push_text(&mut s, " shapes\n");
    assert(s@ =~= before + points_line(*c));
    push_text(&mut s, "  size    ");
    push_text(&mut s, f.size_kb.as_str());
    push_text(&mut s, " KB   render ");
    push_text(&mut s, f.render_ms.as_str());
    push_text(&mut s, " ms   compare ");
    push_text(&mut s, f.compare_ms.as_str());
    push_text(&mut s, " ms");
    assert(s@ =~= report_text(*f, *c));
    s
}

/// `parts` with `sep` between them.
pub open spec fn joined(parts: Seq<Seq<char>>, sep: Seq<char>) -> Seq<char>
    decreases parts.len(),
{
    if parts.len() == 0 {
        seq![]
    } else if parts.len() == 1 {
        parts[0]
    } else {
        joined(parts.drop_last(), sep) + sep + parts.last()
    }
}

/// What the profiler calls an image.
pub open spec fn profile_tags(p: ImageProfile) -> Seq<Seq<char>> {
    let tags = tag(p.pixel_art, "pixel-art"@) + tag(p.photographic, "photographic"@) + tag(
        p.bilevel,
        "bilevel"@,
    ) + tag(p.has_alpha, "has-alpha"@);
    if tags.len() == 0 {
        seq!["general artwork"@]
    } else {
        tags
    }
}

pub open spec fn tag(set: bool, name: Seq<char>) -> Seq<Seq<char>> {
    if set {
        seq![name]
    } else {
        seq![]
    }
}

fn push_tag(s: &mut String, set: bool, name: &str, before: Ghost<Seq<Seq<char>>>) -> (after: Ghost<
    Seq<Seq<char>>,
>)
    requires
        old(s)@ == joined(before@, ", "@),
        before@.len() == 0 <==> old(s)@.len() == 0,
        name@.len() > 0,
    ensures
        after@ == before@ + tag(set, name@),
        final(s)@ == joined(after@, ", "@),
        after@.len() == 0 <==> final(s)@.len() == 0,
{
    let ghost next = before@ + tag(set, name@);
    if set {
        let ghost s0 = s@;
        let first: bool = s.as_str().is_empty();
        if !first {
            push_text(s, ", ");
        }
        push_text(s, name);
        proof {
            assert(next.drop_last() =~= before@);
            assert(next.last() == name@);
            if first {
                assert(s@ =~= name@);
                assert(next.len() == 1);
            } else {
                assert(s@ =~= s0 + ", "@ + name@);
            }
        }
    } else {
        assert(next =~= before@);
    }
    Ghost(next)
}

pub open spec fn profile_text(
    p: ImageProfile,
    antialiasing: Seq<char>,
    flatness: Seq<char>,
    edges: Seq<char>,
) -> Seq<char> {
    "  profile: "@ + joined(profile_tags(p), ", "@) + " | "@ + decimal(p.unique_colors as nat)
        + " colours | anti-aliasing "@ + antialiasing + "% | flat "@ + flatness + "% | edges "@
        + edges + "%"@
}

/// A profile as a line of text; the three percentages are written out.
pub fn format_profile(p: &ImageProfile, antialiasing: &str, flatness: &str, edges: &str) -> (s:
    String)
    ensures
        s@ == profile_text(*p, antialiasing@, flatness@, edges@),
{
    proof {
        reveal_strlit("pixel-art");
        reveal_strlit("photographic");
        reveal_strlit("bilevel");
        reveal_strlit("has-alpha");
    }
    let mut tags: String = String::new();
    let t0 = Ghost(Seq::<Seq<char>>::empty());
    assert(tags@ =~= joined(t0@, ", "@));
    let t1 = push_tag(&mut tags, p.pixel_art, "pixel-art", t0);
    let t2 = push_tag(&mut tags, p.photographic, "photographic", t1);
    let t3 = push_tag(&mut tags, p.bilevel, "bilevel", t2);
    let t4 = push_tag(&mut tags, p.has_alpha, "has-alpha", t3);
    assert(t4@ =~= tag(p.pixel_art, "pixel-art"@) + tag(p.photographic, "photographic"@) + tag(
        p.bilevel,
        "bilevel"@,
    ) + tag(p.has_alpha, "has-alpha"@));
    if tags.as_str().is_empty() {
        push_text(&mut tags, "general artwork");
        assert(tags@ =~= "general artwork"@);
    }
    assert(tags@ =~= joined(profile_tags(*p), ", "@));
    let mut s: String = String::new();
    push_text(&mut s, "  profile: ");
    push_text(&mut s, tags.as_str());
    push_text(&mut s, " | ");
    push_decimal(&mut s, p.unique_colors as u64);
    push_text(&mut s, " colours | anti-aliasing ");
    push_text(&mut s, antialiasing);
    push_text(&mut s, "% | flat ");
    push_text(&mut s, flatness);
    push_text(&mut s, "% | edges ");
    push_text(&mut s, edges);
    push_text(&mut s, "%");
    assert(s@ =~= profile_text(*p, antialiasing@, flatness@, edges@));
    s
}

pub open spec fn hex_list(colors: Seq<Rgba8>) -> Seq<Seq<char>> {
    Seq::new(colors.len(), |i: int| hex_form(colors[i]))
}

pub open spec fn config_text(
    c: VectorizeConfig,
    tolerance: Seq<char>,
    smoothing: Seq<char>,
    corners: Seq<char>,
) -> Seq<char> {
    let mode = match c.segment.mode {
        SegmentMode::Binary => "binary"@,
        SegmentMode::Palette => decimal(c.segment.colors as nat) + " colours"@,
    };
    let transparent = if c.segment.transparent_colors@.len() == 0 {
        seq![]
    } else {
        ", transparent "@ + joined(hex_list(c.segment.transparent_colors@), " "@)
    };
    "  config:  "@ + mode + ", tolerance "@ + tolerance + "px, smoothing "@ + smoothing
        + ", corners "@ + corners + " deg, despeckle "@ + decimal(c.segment.despeckle_area as nat)
        + "px"@ + (if c.subpixel.enabled {
        ""@
    } else {
        ", no sub-pixel"@
    }) + (if c.fit.emit_true_arcs {
        ", true arcs"@
    } else {
        ""@
    }) + transparent
}

fn push_colors(s: &mut String, colors: &Vec<Rgba8>)
    ensures
        final(s)@ == old(s)@ + joined(hex_list(colors@), " "@),
{
    let ghost s0 = s@;
    let ghost all = hex_list(colors@);
    let mut i: usize = 0;
    assert(s@ =~= s0 + joined(all.take(0), " "@));
    while i < colors.len()
        invariant
            i <= colors@.len(),
            all == hex_list(colors@),
            s@ == s0 + joined(all.take(i as int), " "@),
        decreases colors@.len() - i,
    {
        let ghost before = s@;
        if i > 0 {
            push_text(s, " ");
        }
        let name: String = colors[i].to_hex();
        push_text(s, name.as_str());
        proof {
            let next = all.take(i + 1);
            assert(next.drop_last() =~= all.take(i as int));
            assert(next.last() == hex_form(colors@[i as int]));
            if i > 0 {
                assert(s@ =~= s0 + joined(next, " "@));
            } else {
                assert(before =~= s0);
                assert(s@ =~= s0 + joined(next, " "@));
            }
        }
        i = i + 1;
    }
    assert(all.take(i as int) =~= all);
}

/// Settings as a line of text; the three numbers are written out.
pub fn format_config(c: &VectorizeConfig, tolerance: &str, smoothing: &str, corners: &str) -> (s:
    String)
    ensures
        s@ == config_text(*c, tolerance@, smoothing@, corners@),
{
    let mut s: String = String::new();
    push_text(&mut s, "  config:  ");
    match c.segment.mode {
        SegmentMode::Binary => {
            push_text(&mut s, "binary");
        },
        SegmentMode::Palette => {
            push_decimal(&mut s, c.segment.colors as u64);
            push_text(&mut s, " colours");
        },
    }
    push_text(&mut s, ", tolerance ");
    push_text(&mut s, tolerance);
    push_text(&mut s, "px, smoothing ");
    push_text(&mut s, smoothing);
    push_text(&mut s, ", corners ");
    push_text(&mut s, corners);
    push_text(&mut s, " deg, despeckle ");
    push_decimal(&mut s, c.segment.despeckle_area as u64);
    push_text(&mut s, "px");
    push_text(
        &mut s,
        if c.subpixel.enabled {
            ""
        } else {
            ", no sub-pixel"
        },
    );
    push_text(
        &mut s,
        if c.fit.emit_true_arcs {
            ", true arcs"
        } else {
            ""
        },
    );
    let ghost so_far = s@;
    if c.segment.transparent_colors.len() > 0 {
        push_text(&mut s, ", transparent ");
        push_colors(&mut s, &c.segment.transparent_colors);
    }
    assert(s@ =~= config_text(*c, tolerance@, smoothing@, corners@));
    s
}

/// One row of the candidate table; numbers that are not whole are written out.
pub struct TableRow {
    /// At most 24 bytes.
    pub label: String,
    pub match_pct: String,
    pub points: usize,
    pub meets: bool,
    pub size_kb: String,
    pub ms: String,
}

pub open spec fn row_text(r: TableRow) -> Seq<char> {
    left(r.label@, 24) + " "@ + right(r.match_pct@, 8) + " "@ + right(decimal(r.points as nat), 8)
        + " "@ + right(
        if r.meets {
            "yes"@
        } else {
            "no"@
        },
        7,
    ) + " "@ + right(r.size_kb@, 8) + " "@ + right(r.ms@, 6) + "\n"@
}

pub open spec fn table_head() -> Seq<char> {
    left("candidate"@, 24) + " "@ + right("match%"@, 8) + " "@ + right("points"@, 8) + " "@ + right(
        "ok"@,
        7,
    ) + " "@ + right("size KB"@, 8) + " "@ + right("ms"@, 6) + "\n"@ + copies('-', 66) + "\n"@
}

pub open spec fn rows_text(rows: Seq<TableRow>) -> Seq<char>
    decreases rows.len(),
{
    if rows.len() == 0 {
        seq![]
    } else {
        rows_text(rows.drop_last()) + row_text(rows.last())
    }
}

/// At most this many candidates are listed.
pub const LISTED: usize = 40;

pub open spec fn listed(rows: Seq<TableRow>) -> Seq<TableRow> {
    if rows.len() < LISTED {
        rows
    } else {
        rows.take(LISTED as int)
    }
}

fn push_row(s: &mut String, r: &TableRow)
    ensures
        final(s)@ == old(s)@ + row_text(*r),
{
    let ghost s0 = s@;
    push_left(s, r.label.as_str(), 24);
    push_text(s, " ");
    push_right(s, r.match_pct.as_str(), 8);
    push_text(s, " ");
    let points: String = natural(r.points);
    push_right(s, points.as_str(), 8);
    push_text(s, " ");
    push_right(
        s,
        if r.meets {
            "yes"
        } else {
            "no"
        },
        7,
    );
    push_text(s, " ");
    push_right(s, r.size_kb.as_str(), 8);
    push_text(s, " ");
    push_right(s, r.ms.as_str(), 6);
    push_text(s, "\n");
    assert(s@ =~= s0 + row_text(*r));
}

/// The best candidates as a table.
pub fn format_candidate_table(rows: &Vec<TableRow>) -> (s: String)
    ensures
        s@ == table_head() + rows_text(listed(rows@)),
{
    let mut s: String = String::new();
    push_left(&mut s, "candidate", 24);
    push_text(&mut s, " ");
    push_right(&mut s, "match%", 8);
    push_text(&mut s, " ");
    push_right(&mut s, "points", 8);
    push_text(&mut s, " ");
    push_right(&mut s, "ok", 7);
    push_text(&mut s, " ");
    push_right(&mut s, "size KB", 8);
    push_text(&mut s, " ");
    push_right(&mut s, "ms", 6);
    push_text(&mut s, "\n");
    push_copies(&mut s, '-', 66);
    push_text(&mut s, "\n");
    assert(s@ =~= table_head());
    let n: usize = if rows.len() < LISTED {
        rows.len()
    } else {
        LISTED
    };
    assert(listed(rows@) =~= rows@.take(n as int));
    let mut i: usize = 0;
    assert(s@ =~= table_head() + rows_text(rows@.take(0)));
    while i < n
        invariant
            i <= n <= rows@.len(),
            s@ == table_head() + rows_text(rows@.take(i as int)),
        decreases n - i,
    {
        push_row(&mut s, &rows[i]);
        proof {
            let next = rows@.take(i + 1);
            assert(next.drop_last() =~= rows@.take(i as int));
            assert(s@ =~= table_head() + rows_text(next));
        }
        i = i + 1;
    }
    s
}

// ---- Benchmark ----------------------------------------------------------

/// What the benchmark's summary needs to know of one case.
pub struct BenchRow {
    /// The match percentage as an integer that orders like it.
    pub match_key: i64,
    pub meets: bool,
    pub points: usize,
    pub pixels: usize,
    /// Whether the exact geometry is known.
    pub calibrated: bool,
}

/// The aggregate of a benchmark run.
pub struct BenchSummary {
    pub passed: usize,
    pub total_points: u128,
    pub total_pixels: u128,
    /// The case with the lowest match; of equals the first.
    pub worst: Option<usize>,
    /// The cases whose exact geometry is known, in order.
    pub calibrated: Vec<usize>,
}

pub open spec fn passed_in(rows: Seq<BenchRow>) -> nat
    decreases rows.len(),
{
    if rows.len() == 0 {
        0
    } else {
        passed_in(rows.drop_last()) + if rows.last().meets {
            1nat
        } else {
            0
        }
    }
}

pub open spec fn points_in(rows: Seq<BenchRow>) -> nat
    decreases rows.len(),
{
    if rows.len() == 0 {
        0
    } else {
        points_in(rows.drop_last()) + rows.last().points as nat
    }
}

pub open spec fn pixels_in(rows: Seq<BenchRow>) -> nat
    decreases rows.len(),
{
    if rows.len() == 0 {
        0
    } else {
        pixels_in(rows.drop_last()) + rows.last().pixels as nat
    }
}

pub open spec fn calibrated_in(rows: Seq<BenchRow>) -> Seq<usize>
    decreases rows.len(),
{
    if rows.len() == 0 {
        seq![]
    } else if rows.last().calibrated {
        calibrated_in(rows.drop_last()).push((rows.len() - 1) as usize)
    } else {
        calibrated_in(rows.drop_last())
    }
}

/// Whether case `w` has the lowest match, and is the first that does.
pub open spec fn is_worst(rows: Seq<BenchRow>, w: int) -> bool {
    &&& 0 <= w < rows.len()
    &&& forall|i: int| 0 <= i < rows.len() ==> rows[w].match_key <= (#[trigger] rows[i]).match_key
    &&& forall|i: int| 0 <= i < w ==> rows[w].match_key < (#[trigger] rows[i]).match_key
}

/// Summarise a benchmark run. The aggregate is what tells you whether a change
/// helped or hurt overall, rather than just moving quality between cases.
pub fn summarize(rows: &Vec<BenchRow>) -> (s: BenchSummary)
    ensures
        s.passed == passed_in(rows@),
        s.total_points == points_in(rows@),
        s.total_pixels == pixels_in(rows@),
        s.calibrated@ == calibrated_in(rows@),
        s.worst is None <==> rows@.len() == 0,
        s.worst matches Some(w) ==> is_worst(rows@, w as int),
{
    let mut passed: usize = 0;
    let mut total_points: u128 = 0;
    let mut total_pixels: u128 = 0;
    let mut worst: usize = 0;
    let mut calibrated: Vec<usize> = Vec::new();
    let n: usize = rows.len();
    let mut i: usize = 0;
    while i < n
        invariant
            i <= n,
            n == rows@.len(),
            passed == passed_in(rows@.take(i as int)),
            passed <= i,
            total_points == points_in(rows@.take(i as int)),
            total_points <= i * 0xffff_ffff_ffff_ffff,
            total_pixels == pixels_in(rows@.take(i as int)),
            total_pixels <= i * 0xffff_ffff_ffff_ffff,
            calibrated@ == calibrated_in(rows@.take(i as int)),
            i == 0 ==> worst == 0,
            i > 0 ==> is_worst(rows@.take(i as int), worst as int),
        decreases n - i,
    {
        let r: &BenchRow = &rows[i];
        proof {
            let next = rows@.take(i + 1);
            assert(next.drop_last() =~= rows@.take(i as int));
            assert(next.last() == rows@[i as int]);
            assert(i * 0xffff_ffff_ffff_ffff <= 0xffff_ffff_ffff_ffff * 0xffff_ffff_ffff_ffff)
                by (nonlinear_arith)
                requires
                    i <= 0xffff_ffff_ffff_ffff,
            ;
        }
        if r.meets {
            passed = passed + 1;
        }
        total_points = total_points + r.points as u128;
        total_pixels = total_pixels + r.pixels as u128;
        if r.calibrated {
            calibrated.push(i);
        }
        let ghost old_worst = worst as int;
        if i > 0 && r.match_key < rows[worst].match_key {
            worst = i;
        }
        proof {
            let seen = rows@.take(i as int);
            let next = rows@.take(i + 1);
            assert forall|k: int| 0 <= k < next.len() implies next[worst as int].match_key <= (
            #[trigger] next[k]).match_key by {
                if k < i {
                    assert(next[k] == seen[k]);
                    assert(next[old_worst] == seen[old_worst]);
                }
            }
            assert forall|k: int| 0 <= k < worst implies next[worst as int].match_key < (
            #[trigger] next[k]).match_key by {
                assert(next[k] == seen[k]);
                assert(next[old_worst] == seen[old_worst]);
            }
        }
        i = i + 1;
    }
    assert(rows@.take(n as int) =~= rows@);
    BenchSummary {
        passed,
        total_points,
        total_pixels,
        worst: if n == 0 {
            None
        } else {
            Some(worst)
        },
        calibrated,
    }
}

// ---- The benchmark table ------------------------------------------------

/// One line of the benchmark table.
pub struct BenchLine {
    pub name: String,
    pub match_pct: String,
    /// The match that the exact geometry reaches and how far below it the trace
    /// lands, where the geometry is known.
    pub known: Option<(String, String)>,
    pub mean_delta_e: String,
    pub points: usize,
    pub size_kb: String,
    pub meets: bool,
    pub trace_ms: String,
    /// How long choosing the settings took, where they were searched for.
    pub search_ms: Option<String>,
}

/// How far traces land below what is reachable, over the cases whose exact
/// geometry is known.
pub struct Calibration {
    pub cases: usize,
    pub mean_ceiling: String,
    pub mean_gap: String,
    pub worst_gap: String,
}

/// The figures below the table.
pub struct BenchTotals {
    pub target: String,
    pub mean_match: String,
    pub total_ms: String,
    pub worst_name: String,
    pub worst_match: String,
    pub calibration: Option<Calibration>,
    /// Megapixels per second, and megapixels in all.
    pub throughput: Option<(String, String)>,
}

/// The widths of the columns after the first.
pub open spec fn column_width(k: int) -> nat {
    if k == 2 || k == 4 || k == 6 {
        6
    } else if k == 7 {
        8
    } else {
        7
    }
}

fn width_of(k: usize) -> (w: usize)
    ensures
        w == column_width(k as int),
{
    if k == 2 || k == 4 || k == 6 {
        6
    } else if k == 7 {
        8
    } else {
        7
    }
}

/// The first `k` columns after the name.
pub open spec fn cells_text(cells: Seq<Seq<char>>, k: int) -> Seq<char>
    decreases k,
{
    if k <= 0 {
        seq![]
    } else {
        cells_text(cells, k - 1) + seq![' '] + right(cells[k - 1], column_width(k - 1))
    }
}

/// A line of the table.
pub open spec fn line_text(name: Seq<char>, cells: Seq<Seq<char>>) -> Seq<char> {
    left(name, 14) + cells_text(cells, cells.len() as int) + seq!['\n']
}

pub open spec fn bench_head() -> Seq<Seq<char>> {
    seq![
        "match%"@,
        "ceil%"@,
        "gap"@,
        "deltaE"@,
        "pts"@,
        "size KB"@,
        "ok"@,
        "trace ms"@,
        "pick ms"@,
    ]
}

pub open spec fn bench_cells(r: BenchLine) -> Seq<Seq<char>> {
    seq![
        r.match_pct@,
        match r.known {
            Some((ceiling, gap)) => ceiling@,
            None => "-"@,
        },
        match r.known {
            Some((ceiling, gap)) => gap@,
            None => "-"@,
        },
        r.mean_delta_e@,
        decimal(r.points as nat),
        r.size_kb@,
        if r.meets {
            "yes"@
        } else {
            "NO"@
        },
        r.trace_ms@,
        match r.search_ms {
            Some(ms) => ms@,
            None => "-"@,
        },
    ]
}

pub open spec fn lines_text(rows: Seq<BenchLine>) -> Seq<char>
    decreases rows.len(),
{
    if rows.len() == 0 {
        seq![]
    } else {
        lines_text(rows.drop_last()) + line_text(rows.last().name@, bench_cells(rows.last()))
    }
}

pub open spec fn total_cells(s: BenchSummary, t: BenchTotals, n: nat) -> Seq<Seq<char>> {
    seq![
        t.mean_match@,
        ""@,
        ""@,
        ""@,
        decimal(s.total_points as nat),
        ""@,
        decimal(s.passed as nat) + "/"@ + decimal(n),
        t.total_ms@,
    ]
}

pub open spec fn rule_text() -> Seq<char> {
    copies('-', 94) + seq!['\n']
}

pub open spec fn verdict_text(s: BenchSummary, t: BenchTotals, n: nat) -> Seq<char> {
    "\n"@ + decimal(s.passed as nat) + " of "@ + decimal(n) + " images reached the "@ + t.target@
        + "% target.  Worst: "@ + t.worst_name@ + " at "@ + t.worst_match@ + "%.\n"@
}

pub open spec fn calibration_text(c: Option<Calibration>) -> Seq<char> {
    match c {
        Some(c) => "\nOf those, "@ + decimal(c.cases as nat)
            + " have known geometry. Scoring the exact original shapes gives a\nceiling of "@
            + c.mean_ceiling@
            + "% on average -- that is what a flawless tracer would score here,\nthe rest being the difference between two renderers' anti-aliasing. Tracing\nlands "@
            + c.mean_gap@ + " points below that ceiling on average, "@ + c.worst_gap@
            + " at worst.\n"@,
        None => seq![],
    }
}

pub open spec fn throughput_text(t: Option<(String, String)>) -> Seq<char> {
    match t {
        Some((rate, size)) => "Throughput: "@ + rate@ + " megapixels/second across "@ + size@
            + " MP of input.\n"@,
        None => seq![],
    }
}

/// The whole benchmark report.
pub open spec fn bench_text(rows: Seq<BenchLine>, s: BenchSummary, t: BenchTotals) -> Seq<char> {
    line_text("case"@, bench_head()) + rule_text() + lines_text(rows) + rule_text() + line_text(
        "MEAN/TOTAL"@,
        total_cells(s, t, rows.len()),
    ) + verdict_text(s, t, rows.len()) + calibration_text(t.calibration) + throughput_text(
        t.throughput,
    )
}

/// What the cells hold.
pub open spec fn cell_views(cells: Seq<&str>) -> Seq<Seq<char>> {
    Seq::new(cells.len(), |k: int| cells[k]@)
}

fn push_line(s: &mut String, name: &str, cells: &Vec<&str>)
    ensures
        final(s)@ == old(s)@ + line_text(name@, cell_views(cells@)),
{
    let ghost s0 = s@;
    let ghost views = cell_views(cells@);
    push_left(s, name, 14);
    let ghost head = s@;
    let mut k: usize = 0;
    assert(s@ =~= head + cells_text(views, 0));
    while k < cells.len()
        invariant
            k <= cells@.len(),
            views == cell_views(cells@),
            s@ == head + cells_text(views, k as int),
        decreases cells@.len() - k,
    {
        let ghost before = s@;
        s.push(' ');
        push_right(s, cells[k], width_of(k));
        assert(s@ =~= head + cells_text(views, k + 1));
        k = k + 1;
    }
    s.push('\n');
    assert(s@ =~= s0 + line_text(name@, views));
}

fn push_rule(s: &mut String)
    ensures
        final(s)@ == old(s)@ + rule_text(),
{
    let ghost s0 = s@;
    push_copies(s, '-', 94);
    s.push('\n');
    assert(s@ =~= s0 + rule_text());
}

fn push_bench_head(s: &mut String)
    ensures
        final(s)@ == old(s)@ + line_text("case"@, bench_head()),
{
    let mut cells: Vec<&str> = Vec::new();
    cells.push("match%");
    cells.push("ceil%");
    cells.push("gap");
    cells.push("deltaE");
    cells.push("pts");
    cells.push("size KB");
    cells.push("ok");
    cells.push("trace ms");
    cells.push("pick ms");
    assert(cell_views(cells@) =~= bench_head());
    push_line(s, "case", &cells);
}

fn push_bench_line(s: &mut String, r: &BenchLine)
    ensures
        final(s)@ == old(s)@ + line_text(r.name@, bench_cells(*r)),
{
    let points: String = natural(r.points);
    let mut cells: Vec<&str> = Vec::new();
    cells.push(r.match_pct.as_str());
    match &r.known {
        Some((ceiling, gap)) => {
            cells.push(ceiling.as_str());
            cells.push(gap.as_str());
        },
        None => {
            cells.push("-");
            cells.push("-");
        },
    }
    cells.push(r.mean_delta_e.as_str());
    cells.push(points.as_str());
    cells.push(r.size_kb.as_str());
    cells.push(
        if r.meets {
            "yes"
        } else {
            "NO"
        },
    );
    cells.push(r.trace_ms.as_str());
    match &r.search_ms {
        Some(ms) => {
            cells.push(ms.as_str());
        },
        None => {
            cells.push("-");
        },
    }
    assert(cell_views(cells@) =~= bench_cells(*r));
    push_line(s, r.name.as_str(), &cells);
}

fn push_totals(s: &mut String, b: &BenchSummary, t: &BenchTotals, n: usize)
    ensures
        final(s)@ == old(s)@ + line_text("MEAN/TOTAL"@, total_cells(*b, *t, n as nat)),
{
    let mut points: String = String::new();
    push_natural(&mut points, b.total_points);
    assert(points@ =~= decimal(b.total_points as nat));
    let mut passed: String = natural(b.passed);
    push_text(&mut passed, "/");
    push_decimal(&mut passed, n as u64);
    assert(passed@ =~= decimal(b.passed as nat) + "/"@ + decimal(n as nat));
    let mut cells: Vec<&str> = Vec::new();
    cells.push(t.mean_match.as_str());
    cells.push("");
    cells.push("");
    cells.push("");
    cells.push(points.as_str());
    cells.push("");
    cells.push(passed.as_str());
    cells.push(t.total_ms.as_str());
    assert(cell_views(cells@) =~= total_cells(*b, *t, n as nat));
    push_line(s, "MEAN/TOTAL", &cells);
}

fn push_verdict(s: &mut String, b: &BenchSummary, t: &BenchTotals, n: usize)
    ensures
        final(s)@ == old(s)@ + verdict_text(*b, *t, n as nat),
{
    let ghost s0 = s@;
    push_text(s, "\n");
    push_decimal(s, b.passed as u64);
    push_text(s, " of ");
    push_decimal(s, n as u64);
    push_text(s, " images reached the ");
    push_text(s, t.target.as_str());
    push_text(s, "% target.  Worst: ");
    push_text(s, t.worst_name.as_str());
    push_text(s, " at ");
    push_text(s, t.worst_match.as_str());
    push_text(s, "%.\n");
    assert(s@ =~= s0 + verdict_text(*b, *t, n as nat));
}

/// The pass count is close to meaningless on its own, because the target is not
/// always reachable. This says how much of the shortfall the tracer is actually
/// responsible for.
fn push_calibration(s: &mut String, c: &Option<Calibration>)
    ensures
        final(s)@ == old(s)@ + calibration_text(*c),
{
    let ghost s0 = s@;
    match c {
        Some(c) => {
            push_text(s, "\nOf those, ");
            push_decimal(s, c.cases as u64);
            push_text(
                s,
                " have known geometry. Scoring the exact original shapes gives a\nceiling of ",
            );
            push_text(s, c.mean_ceiling.as_str());
            push_text(
                s,
                "% on average -- that is what a flawless tracer would score here,\nthe rest being the difference between two renderers' anti-aliasing. Tracing\nlands ",
            );
            push_text(s, c.mean_gap.as_str());
            push_text(s, " points below that ceiling on average, ");
            push_text(s, c.worst_gap.as_str());
            push_text(s, " at worst.\n");
        },
        None => {},
    }
    assert(s@ =~= s0 + calibration_text(*c));
}

fn push_throughput(s: &mut String, t: &Option<(String, String)>)
    ensures
        final(s)@ == old(s)@ + throughput_text(*t),
{
    let ghost s0 = s@;
    match t {
        Some((rate, size)) => {
            push_text(s, "Throughput: ");
            push_text(s, rate.as_str());
            push_text(s, " megapixels/second across ");
            push_text(s, size.as_str());
            push_text(s, " MP of input.\n");
        },
        None => {},
    }
    assert(s@ =~= s0 + throughput_text(*t));
}

/// The benchmark report: one line per case, the totals, and what they mean.
pub fn format_bench(rows: &Vec<BenchLine>, b: &BenchSummary, t: &BenchTotals) -> (s: String)
    ensures
        s@ == bench_text(rows@, *b, *t),
{
    let mut s: String = String::new();
    push_bench_head(&mut s);
    push_rule(&mut s);
    let ghost head = s@;
    assert(head =~= line_text("case"@, bench_head()) + rule_text());
    let mut i: usize = 0;
    assert(s@ =~= head + lines_text(rows@.take(0)));
    while i < rows.len()
        invariant
            i <= rows@.len(),
            s@ == head + lines_text(rows@.take(i as int)),
        decreases rows@.len() - i,
    {
        push_bench_line(&mut s, &rows[i]);
        proof {
            let next = rows@.take(i + 1);
            assert(next.drop_last() =~= rows@.take(i as int));
            assert(s@ =~= head + lines_text(next));
        }
        i = i + 1;
    }
    assert(rows@.take(i as int) =~= rows@);
    push_rule(&mut s);
    push_totals(&mut s, b, t, rows.len());
    push_verdict(&mut s, b, t, rows.len());
    push_calibration(&mut s, &t.calibration);
    push_throughput(&mut s, &t.throughput);
    s
}

// ---- Where things stand -------------------------------------------------

/// `part` stands in `text` and ends just before column `end`.
pub open spec fn ends_before(text: Seq<char>, part: Seq<char>, end: int) -> bool {
    part.len() <= end <= text.len() && text.subrange(end - part.len(), end) == part
}

proof fn lemma_ends_in(a: Seq<char>, s: Seq<char>, n: nat, b: Seq<char>)
    requires
        s.len() <= n,
    ensures
        ends_before(a + right(s, n) + b, s, (a.len() + n) as int),
        right(s, n).len() == n,
{
    let text = a + right(s, n) + b;
    assert(text.subrange(a.len() + n - s.len(), (a.len() + n) as int) =~= s);
}

/// In a row of the candidate table the label begins the line, and the numbers end before
/// columns 33, 42, 59 and 66 and the verdict before column 50, each under its heading, as
/// long as they fit.
pub proof fn law_candidates_line_up(r: TableRow)
    requires
        r.label@.len() <= 24,
        r.match_pct@.len() <= 8,
        decimal(r.points as nat).len() <= 8,
        r.size_kb@.len() <= 8,
        r.ms@.len() <= 6,
    ensures
        row_text(r).len() == 67,
        row_text(r).take(r.label@.len() as int) == r.label@,
        ends_before(row_text(r), r.match_pct@, 33),
        ends_before(row_text(r), decimal(r.points as nat), 42),
        ends_before(
            row_text(r),
            if r.meets {
                "yes"@
            } else {
                "no"@
            },
            50,
        ),
        ends_before(row_text(r), r.size_kb@, 59),
        ends_before(row_text(r), r.ms@, 66),
        ends_before(table_head(), "match%"@, 33),
        ends_before(table_head(), "points"@, 42),
        ends_before(table_head(), "ok"@, 50),
        ends_before(table_head(), "size KB"@, 59),
        ends_before(table_head(), "ms"@, 66),
{
    reveal_strlit(" ");
    reveal_strlit("\n");
    reveal_strlit("yes");
    reveal_strlit("no");
    reveal_strlit("match%");
    reveal_strlit("points");
    reveal_strlit("ok");
    reveal_strlit("size KB");
    reveal_strlit("ms");
    reveal_strlit("candidate");
    let verdict = if r.meets {
        "yes"@
    } else {
        "no"@
    };
    lemma_row_lines_up(r.label@, r.match_pct@, decimal(r.points as nat), verdict, r.size_kb@, r.ms@, "\n"@);
    assert(row_text(r).take(r.label@.len() as int) =~= r.label@);
    let end = "\n"@ + copies('-', 66) + "\n"@;
    lemma_row_lines_up("candidate"@, "match%"@, "points"@, "ok"@, "size KB"@, "ms"@, end);
    assert(table_head() =~= left("candidate"@, 24) + " "@ + right("match%"@, 8) + " "@ + right(
        "points"@,
        8,
    ) + " "@ + right("ok"@, 7) + " "@ + right("size KB"@, 8) + " "@ + right("ms"@, 6) + end);
}

proof fn lemma_row_lines_up(
    a: Seq<char>,
    b: Seq<char>,
    c: Seq<char>,
    d: Seq<char>,
    e: Seq<char>,
    f: Seq<char>,
    end: Seq<char>,
)
    requires
        a.len() <= 24,
        b.len() <= 8,
        c.len() <= 8,
        d.len() <= 7,
        e.len() <= 8,
        f.len() <= 6,
    ensures
        ({
            let text = left(a, 24) + " "@ + right(b, 8) + " "@ + right(c, 8) + " "@ + right(d, 7)
                + " "@ + right(e, 8) + " "@ + right(f, 6) + end;
            &&& text.len() == 66 + end.len()
            &&& ends_before(text, b, 33)
            &&& ends_before(text, c, 42)
            &&& ends_before(text, d, 50)
            &&& ends_before(text, e, 59)
            &&& ends_before(text, f, 66)
        }),
{
    reveal_strlit(" ");
    let text = left(a, 24) + " "@ + right(b, 8) + " "@ + right(c, 8) + " "@ + right(d, 7) + " "@
        + right(e, 8) + " "@ + right(f, 6) + end;
    let t1 = left(a, 24) + " "@;
    let t2 = t1 + right(b, 8) + " "@;
    let t3 = t2 + right(c, 8) + " "@;
    let t4 = t3 + right(d, 7) + " "@;
    let t5 = t4 + right(e, 8) + " "@;
    let r5 = end;
    let r4 = " "@ + right(f, 6) + end;
    let r3 = " "@ + right(e, 8) + r4;
    let r2 = " "@ + right(d, 7) + r3;
    let r1 = " "@ + right(c, 8) + r2;
    lemma_ends_in(t1, b, 8, r1);
    lemma_ends_in(t2, c, 8, r2);
    lemma_ends_in(t3, d, 7, r3);
    lemma_ends_in(t4, e, 8, r4);
    lemma_ends_in(t5, f, 6, r5);
    assert(text =~= t1 + right(b, 8) + r1);
    assert(text =~= t2 + right(c, 8) + r2);
    assert(text =~= t3 + right(d, 7) + r3);
    assert(text =~= t4 + right(e, 8) + r4);
    assert(text =~= t5 + right(f, 6) + r5);
}

/// Where column `k` after the name ends.
pub open spec fn column_end(k: int) -> int {
    if k <= 0 {
        22
    } else if k == 1 {
        30
    } else if k == 2 {
        37
    } else if k == 3 {
        45
    } else if k == 4 {
        52
    } else if k == 5 {
        60
    } else if k == 6 {
        67
    } else if k == 7 {
        76
    } else {
        84
    }
}

/// Every cell fits its column.
pub open spec fn cells_fit(name: Seq<char>, cells: Seq<Seq<char>>) -> bool {
    &&& name.len() <= 14
    &&& cells.len() <= 9
    &&& forall|k: int| 0 <= k < cells.len() ==> (#[trigger] cells[k]).len() <= column_width(k)
}

proof fn lemma_cells(name: Seq<char>, cells: Seq<Seq<char>>, k: int)
    requires
        cells_fit(name, cells),
        0 <= k <= cells.len(),
    ensures
        (left(name, 14) + cells_text(cells, k)).len() == (if k == 0 {
            14
        } else {
            column_end(k - 1)
        }),
        forall|j: int|
            0 <= j < k ==> ends_before(
                left(name, 14) + cells_text(cells, k),
                #[trigger] cells[j],
                column_end(j),
            ),
    decreases k,
{
    if k > 0 {
        lemma_cells(name, cells, k - 1);
        let before = left(name, 14) + cells_text(cells, k - 1);
        let now = left(name, 14) + cells_text(cells, k);
        let c = cells[k - 1];
        let a = before + seq![' '];
        lemma_ends_in(a, c, column_width(k - 1), seq![]);
        assert(now =~= a + right(c, column_width(k - 1)) + Seq::<char>::empty());
        assert forall|j: int| 0 <= j < k implies ends_before(
            now,
            #[trigger] cells[j],
            column_end(j),
        ) by {
            if j < k - 1 {
                assert(now.subrange(column_end(j) - cells[j].len(), column_end(j))
                    =~= before.subrange(column_end(j) - cells[j].len(), column_end(j)));
            }
        }
    }
}

/// In a line of the benchmark table the name comes first and each number ends at the end
/// of its own column, as long as they fit.
pub proof fn law_benchmarks_line_up(r: BenchLine)
    requires
        cells_fit(r.name@, bench_cells(r)),
    ensures
        ({
            let line = line_text(r.name@, bench_cells(r));
            &&& line.take(r.name@.len() as int) == r.name@
            &&& ends_before(line, r.match_pct@, 22)
            &&& r.known matches Some((ceiling, gap)) ==> ends_before(line, ceiling@, 30)
                && ends_before(line, gap@, 37)
            &&& r.known is None ==> ends_before(line, "-"@, 30) && ends_before(line, "-"@, 37)
            &&& ends_before(line, r.mean_delta_e@, 45)
            &&& ends_before(line, decimal(r.points as nat), 52)
            &&& ends_before(line, r.size_kb@, 60)
            &&& ends_before(
                line,
                if r.meets {
                    "yes"@
                } else {
                    "NO"@
                },
                67,
            )
            &&& ends_before(line, r.trace_ms@, 76)
            &&& r.search_ms matches Some(ms) ==> ends_before(line, ms@, 84)
            &&& r.search_ms is None ==> ends_before(line, "-"@, 84)
            &&& line.len() == 85
            &&& line.last() == '\n'
        }),
{
    let cells = bench_cells(r);
    let line = line_text(r.name@, cells);
    let body = left(r.name@, 14) + cells_text(cells, 9);
    lemma_cells(r.name@, cells, 9);
    assert(line =~= body + seq!['\n']);
    assert(line.take(r.name@.len() as int) =~= r.name@);
    lemma_in_line(body, cells[0], 22);
    lemma_in_line(body, cells[1], 30);
    lemma_in_line(body, cells[2], 37);
    lemma_in_line(body, cells[3], 45);
    lemma_in_line(body, cells[4], 52);
    lemma_in_line(body, cells[5], 60);
    lemma_in_line(body, cells[6], 67);
    lemma_in_line(body, cells[7], 76);
    lemma_in_line(body, cells[8], 84);
}

proof fn lemma_in_line(body: Seq<char>, cell: Seq<char>, end: int)
    requires
        ends_before(body, cell, end),
    ensures
        ends_before(body + seq!['\n'], cell, end),
{
    assert((body + seq!['\n']).subrange(end - cell.len(), end) =~= body.subrange(
        end - cell.len(),
        end,
    ));
}

/// A bar is filled to the nearest cell, from the left.
pub proof fn law_bars_are_filled_to_the_nearest_cell(fraction: Billionths, width: nat)
    requires
        0 <= fraction <= 1_000_000_000,
    ensures
        filled(fraction, width) <= width,
        -1_000_000_000 <= 2 * (1_000_000_000 * filled(fraction, width) - fraction * width)
            <= 1_000_000_000,
        forall|i: int|
            0 <= i < width ==> #[trigger] bar_text(fraction, width)[i] == (if i < filled(
                fraction,
                width,
            ) {
                '#'
            } else {
                '-'
            }),
{
    let f = fraction as int;
    let w = width as int;
    assert(0 <= f * w <= 1_000_000_000 * w) by (nonlinear_arith)
        requires
            0 <= f <= 1_000_000_000,
            0 <= w,
    ;
}

/// The cases that passed, the points and the pixels of a benchmark run are those of its
/// rows, and the calibrated cases are listed in order.
pub proof fn law_summaries_add_up(rows: Seq<BenchRow>, row: BenchRow)
    ensures
        passed_in(rows.push(row)) == passed_in(rows) + (if row.meets {
            1int
        } else {
            0
        }),
        points_in(rows.push(row)) == points_in(rows) + row.points,
        pixels_in(rows.push(row)) == pixels_in(rows) + row.pixels,
        row.calibrated ==> calibrated_in(rows.push(row)) == calibrated_in(rows).push(
            rows.len() as usize,
        ),
        !row.calibrated ==> calibrated_in(rows.push(row)) == calibrated_in(rows),
        passed_in(seq![]) == 0 && points_in(seq![]) == 0 && pixels_in(seq![]) == 0,
{
    assert(rows.push(row).drop_last() =~= rows);
}

/// The worst case is one that no other falls below, and the first of those.
pub proof fn law_the_worst_case_is_the_lowest(rows: Seq<BenchRow>, w: int, i: int)
    requires
        is_worst(rows, w),
        0 <= i < rows.len(),
    ensures
        rows[w].match_key <= rows[i].match_key,
        rows[w].match_key == rows[i].match_key ==> w <= i,
{
    let r = rows[i];
}

// ---- What a report says -------------------------------------------------

/// Somewhere in `text` stands `label`, and right after it `value`.
pub open spec fn says(text: Seq<char>, label: Seq<char>, value: Seq<char>) -> bool {
    exists|i: int| #[trigger] says_at(text, label, value, i)
}

pub open spec fn says_at(text: Seq<char>, label: Seq<char>, value: Seq<char>, i: int) -> bool {
    &&& 0 <= i <= text.len() - label.len() - value.len()
    &&& text.subrange(i, i + label.len()) == label
    &&& text.subrange(i + label.len(), i + label.len() + value.len()) == value
}

proof fn lemma_says(a: Seq<char>, label: Seq<char>, value: Seq<char>, b: Seq<char>)
    ensures
        says(a + label + value + b, label, value),
{
    let text = a + label + value + b;
    let i = a.len() as int;
    assert(text.subrange(i, i + label.len()) =~= label);
    assert(text.subrange(i + label.len(), i + label.len() + value.len()) =~= value);
    assert(says_at(text, label, value, i));
}

/// What a part of a text says, the text says.
proof fn lemma_says_within(
    a: Seq<char>,
    part: Seq<char>,
    b: Seq<char>,
    label: Seq<char>,
    value: Seq<char>,
)
    requires
        says(part, label, value),
    ensures
        says(a + part + b, label, value),
{
    let text = a + part + b;
    let i = choose|i: int| #[trigger] says_at(part, label, value, i);
    let j = a.len() + i;
    assert(text.subrange(j, j + label.len()) =~= part.subrange(i, i + label.len()));
    assert(text.subrange(j + label.len(), j + label.len() + value.len()) =~= part.subrange(
        i + label.len(),
        i + label.len() + value.len(),
    ));
    assert(says_at(text, label, value, j));
}

proof fn lemma_delta_line(f: Figures)
    ensures
        says(delta_line(f), "  deltaE  mean "@, f.mean_delta_e@),
        says(delta_line(f), "  p95 "@, f.p95_delta_e@),
        says(delta_line(f), "  max "@, f.max_delta_e@),
{
    let mean = "  deltaE  mean "@;
    let t1 = mean + f.mean_delta_e@;
    let t2 = t1 + "  p95 "@ + f.p95_delta_e@;
    let e2 = "  max "@ + f.max_delta_e@ + "\n"@;
    let e1 = "  p95 "@ + f.p95_delta_e@ + e2;
    lemma_says(seq![], mean, f.mean_delta_e@, e1);
    assert(delta_line(f) =~= Seq::<char>::empty() + mean + f.mean_delta_e@ + e1);
    lemma_says(t1, "  p95 "@, f.p95_delta_e@, e2);
    assert(delta_line(f) =~= t1 + "  p95 "@ + f.p95_delta_e@ + e2);
    lemma_says(t2, "  max "@, f.max_delta_e@, "\n"@);
    assert(delta_line(f) =~= t2 + "  max "@ + f.max_delta_e@ + "\n"@);
}

proof fn lemma_error_line(f: Figures)
    ensures
        says(error_line(f), "  rmse    "@, f.rmse@),
        says(error_line(f), "   psnr "@, f.psnr@),
        says(error_line(f), " dB   ssim "@, f.ssim@),
{
    let first = "  rmse    "@;
    let t1 = first + f.rmse@;
    let t2 = t1 + "   psnr "@ + f.psnr@;
    let e2 = " dB   ssim "@ + f.ssim@ + "\n"@;
    let e1 = "   psnr "@ + f.psnr@ + e2;
    lemma_says(seq![], first, f.rmse@, e1);
    assert(error_line(f) =~= Seq::<char>::empty() + first + f.rmse@ + e1);
    lemma_says(t1, "   psnr "@, f.psnr@, e2);
    assert(error_line(f) =~= t1 + "   psnr "@ + f.psnr@ + e2);
    lemma_says(t2, " dB   ssim "@, f.ssim@, "\n"@);
    assert(error_line(f) =~= t2 + " dB   ssim "@ + f.ssim@ + "\n"@);
}

proof fn lemma_size_line(f: Figures)
    ensures
        says(size_line(f), "  size    "@, f.size_kb@),
        says(size_line(f), " KB   render "@, f.render_ms@),
        says(size_line(f), " ms   compare "@, f.compare_ms@),
{
    let first = "  size    "@;
    let t1 = first + f.size_kb@;
    let t2 = t1 + " KB   render "@ + f.render_ms@;
    let e2 = " ms   compare "@ + f.compare_ms@ + " ms"@;
    let e1 = " KB   render "@ + f.render_ms@ + e2;
    lemma_says(seq![], first, f.size_kb@, e1);
    assert(size_line(f) =~= Seq::<char>::empty() + first + f.size_kb@ + e1);
    lemma_says(t1, " KB   render "@, f.render_ms@, e2);
    assert(size_line(f) =~= t1 + " KB   render "@ + f.render_ms@ + e2);
    lemma_says(t2, " ms   compare "@, f.compare_ms@, " ms"@);
    assert(size_line(f) =~= t2 + " ms   compare "@ + f.compare_ms@ + " ms"@);
}

proof fn lemma_points_line(c: Complexity)
    ensures
        says(points_line(c), "  points  "@, decimal((c.anchors + c.handles) as nat)),
        says(points_line(c), " ("@, decimal(c.anchors as nat)),
        says(points_line(c), " anchors + "@, decimal(c.handles as nat)),
        says(points_line(c), " handles) in "@, decimal(c.segments as nat)),
        says(points_line(c), " segments, "@, decimal(c.shapes as nat)),
{
    let n = decimal((c.anchors + c.handles) as nat);
    let a = decimal(c.anchors as nat);
    let h = decimal(c.handles as nat);
    let g = decimal(c.segments as nat);
    let s = decimal(c.shapes as nat);
    let first = "  points  "@;
    let t1 = first + n;
    let t2 = t1 + " ("@ + a;
    let t3 = t2 + " anchors + "@ + h;
    let t4 = t3 + " handles) in "@ + g;
    let e4 = " segments, "@ + s + " shapes\n"@;
    let e3 = " handles) in "@ + g + e4;
    let e2 = " anchors + "@ + h + e3;
    let e1 = " ("@ + a + e2;
    lemma_says(seq![], first, n, e1);
    assert(points_line(c) =~= Seq::<char>::empty() + first + n + e1);
    lemma_says(t1, " ("@, a, e2);
    assert(points_line(c) =~= t1 + " ("@ + a + e2);
    lemma_says(t2, " anchors + "@, h, e3);
    assert(points_line(c) =~= t2 + " anchors + "@ + h + e3);
    lemma_says(t3, " handles) in "@, g, e4);
    assert(points_line(c) =~= t3 + " handles) in "@ + g + e4);
    lemma_says(t4, " segments, "@, s, " shapes\n"@);
    assert(points_line(c) =~= t4 + " segments, "@ + s + " shapes\n"@);
}

/// A report gives every figure under its own name.
pub proof fn law_reports_name_their_figures(f: Figures, c: Complexity)
    ensures
        says(report_text(f, c), "  match   "@, right(f.match_pct@, 6)),
        says(report_text(f, c), "  deltaE  mean "@, f.mean_delta_e@),
        says(report_text(f, c), "  p95 "@, f.p95_delta_e@),
        says(report_text(f, c), "  max "@, f.max_delta_e@),
        says(report_text(f, c), "  rmse    "@, f.rmse@),
        says(report_text(f, c), "   psnr "@, f.psnr@),
        says(report_text(f, c), " dB   ssim "@, f.ssim@),
        says(report_text(f, c), "  points  "@, decimal((c.anchors + c.handles) as nat)),
        says(report_text(f, c), " ("@, decimal(c.anchors as nat)),
        says(report_text(f, c), " anchors + "@, decimal(c.handles as nat)),
        says(report_text(f, c), " handles) in "@, decimal(c.segments as nat)),
        says(report_text(f, c), " segments, "@, decimal(c.shapes as nat)),
        says(report_text(f, c), "  size    "@, f.size_kb@),
        says(report_text(f, c), " KB   render "@, f.render_ms@),
        says(report_text(f, c), " ms   compare "@, f.compare_ms@),
{
    let all = report_text(f, c);
    let none = Seq::<char>::empty();
    let m = match_line(f);
    let d = delta_line(f);
    let e = error_line(f);
    let p = points_line(c);
    let s = size_line(f);
    let first = "  match   "@;
    let rest = "%  ["@ + bar_text(f.bar, 24) + "]   (pixels within deltaE 2.0)\n"@;
    lemma_says(none, first, right(f.match_pct@, 6), rest + d + e + p + s);
    assert(all =~= none + first + right(f.match_pct@, 6) + (rest + d + e + p + s));
    lemma_delta_line(f);
    lemma_error_line(f);
    lemma_points_line(c);
    lemma_size_line(f);
    assert(all =~= m + d + (e + p + s));
    lemma_says_within(m, d, e + p + s, "  deltaE  mean "@, f.mean_delta_e@);
    lemma_says_within(m, d, e + p + s, "  p95 "@, f.p95_delta_e@);
    lemma_says_within(m, d, e + p + s, "  max "@, f.max_delta_e@);
    assert(all =~= (m + d) + e + (p + s));
    lemma_says_within(m + d, e, p + s, "  rmse    "@, f.rmse@);
    lemma_says_within(m + d, e, p + s, "   psnr "@, f.psnr@);
    lemma_says_within(m + d, e, p + s, " dB   ssim "@, f.ssim@);
    assert(all =~= (m + d + e) + p + s);
    lemma_says_within(m + d + e, p, s, "  points  "@, decimal((c.anchors + c.handles) as nat));
    lemma_says_within(m + d + e, p, s, " ("@, decimal(c.anchors as nat));
    lemma_says_within(m + d + e, p, s, " anchors + "@, decimal(c.handles as nat));
    lemma_says_within(m + d + e, p, s, " handles) in "@, decimal(c.segments as nat));
    lemma_says_within(m + d + e, p, s, " segments, "@, decimal(c.shapes as nat));
    assert(all =~= (m + d + e + p) + s + none);
    lemma_says_within(m + d + e + p, s, none, "  size    "@, f.size_kb@);
    lemma_says_within(m + d + e + p, s, none, " KB   render "@, f.render_ms@);
    lemma_says_within(m + d + e + p, s, none, " ms   compare "@, f.compare_ms@);
}

/// A profile gives the number of colours and its three percentages under their own names.
pub proof fn law_profiles_name_their_figures(
    p: ImageProfile,
    antialiasing: Seq<char>,
    flatness: Seq<char>,
    edges: Seq<char>,
)
    ensures
        says(
            profile_text(p, antialiasing, flatness, edges),
            " | "@,
            decimal(p.unique_colors as nat),
        ),
        says(
            profile_text(p, antialiasing, flatness, edges),
            " colours | anti-aliasing "@,
            antialiasing,
        ),
        says(profile_text(p, antialiasing, flatness, edges), "% | flat "@, flatness),
        says(profile_text(p, antialiasing, flatness, edges), "% | edges "@, edges),
        p.pixel_art ==> profile_tags(p).contains("pixel-art"@),
        p.photographic ==> profile_tags(p).contains("photographic"@),
        p.bilevel ==> profile_tags(p).contains("bilevel"@),
        p.has_alpha ==> profile_tags(p).contains("has-alpha"@),
        !p.pixel_art && !p.photographic && !p.bilevel && !p.has_alpha ==> profile_tags(p) == seq![
            "general artwork"@,
        ],
{
    let all = profile_text(p, antialiasing, flatness, edges);
    let n = decimal(p.unique_colors as nat);
    let t0 = "  profile: "@ + joined(profile_tags(p), ", "@);
    let t1 = t0 + " | "@ + n;
    let t2 = t1 + " colours | anti-aliasing "@ + antialiasing;
    let t3 = t2 + "% | flat "@ + flatness;
    let e3 = "% | edges "@ + edges + "%"@;
    let e2 = "% | flat "@ + flatness + e3;
    let e1 = " colours | anti-aliasing "@ + antialiasing + e2;
    lemma_says(t0, " | "@, n, e1);
    assert(all =~= t0 + " | "@ + n + e1);
    lemma_says(t1, " colours | anti-aliasing "@, antialiasing, e2);
    assert(all =~= t1 + " colours | anti-aliasing "@ + antialiasing + e2);
    lemma_says(t2, "% | flat "@, flatness, e3);
    assert(all =~= t2 + "% | flat "@ + flatness + e3);
    lemma_says(t3, "% | edges "@, edges, "%"@);
    assert(all =~= t3 + "% | edges "@ + edges + "%"@);
    lemma_tags(p);
}

proof fn lemma_tags(p: ImageProfile)
    ensures
        p.pixel_art ==> profile_tags(p).contains("pixel-art"@),
        p.photographic ==> profile_tags(p).contains("photographic"@),
        p.bilevel ==> profile_tags(p).contains("bilevel"@),
        p.has_alpha ==> profile_tags(p).contains("has-alpha"@),
{
    let a = tag(p.pixel_art, "pixel-art"@);
    let b = tag(p.photographic, "photographic"@);
    let c = tag(p.bilevel, "bilevel"@);
    let d = tag(p.has_alpha, "has-alpha"@);
    let all = a + b + c + d;
    if p.pixel_art {
        assert(all[0] == "pixel-art"@);
    }
    if p.photographic {
        assert(all[a.len() as int] == "photographic"@);
    }
    if p.bilevel {
        assert(all[(a.len() + b.len()) as int] == "bilevel"@);
    }
    if p.has_alpha {
        assert(all[(a.len() + b.len() + c.len()) as int] == "has-alpha"@);
    }
}

} // verus!
