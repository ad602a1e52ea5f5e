//! DXF writer (AutoCAD R12 ASCII).
//!
//! DXF is the format that CNC routers, laser cutters and vinyl plotters expect.
//! R12 is chosen deliberately over newer revisions because it is the dialect
//! essentially every machine controller can read.
//!
//! Two consequences follow from the format, and callers should know about both:
//! R12 has no Bezier primitive, so curves are flattened to polylines; and it
//! has no practical fill for arbitrary nested regions, so shapes are written as
//! closed outlines. That is what a cutting workflow wants anyway -- it is the
//! boundary, not the paint, that drives the tool.

use crate::color::Rgba8;
use crate::export::{lemma_magnitude_characters, num, numeral, Point};
use crate::text::{decimal, lemma_decimal_digits, push_decimal, push_text};
use vstd::prelude::*;

verus! {

/// One flattened subpath, in image coordinates.
pub struct Outline {
    pub closed: bool,
    /// Whether the last point lies on the first one.
    pub returns: bool,
    pub points: Vec<Point>,
}

/// The outlines of one shape.
pub struct Cut {
    pub color: Rgba8,
    pub outlines: Vec<Outline>,
}

/// The digits after the point that this writer uses at least.
pub open spec fn places(precision: nat) -> nat {
    if precision < 4 {
        4
    } else {
        precision
    }
}

/// The number of decimal places that coordinates are counted in when the
/// document asks for `precision`.
pub fn decimal_places(precision: u32) -> (p: u32)
    ensures
        p == places(precision as nat),
{
    if precision < 4 {
        4
    } else {
        precision
    }
}

// ---- Group codes --------------------------------------------------------

/// A group code and its value.
pub ghost struct Group {
    pub code: nat,
    pub value: Seq<char>,
}

pub open spec fn group(code: nat, value: Seq<char>) -> Group {
    Group { code, value }
}

/// A group as it stands in the file: the code and the value on a line each.
pub open spec fn group_text(g: Group) -> Seq<char> {
    decimal(g.code) + "\n"@ + g.value + "\n"@
}

pub open spec fn groups_text(g: Seq<Group>) -> Seq<char>
    decreases g.len(),
{
    if g.len() == 0 {
        seq![]
    } else {
        groups_text(g.drop_last()) + group_text(g.last())
    }
}

/// A DXF group code / value pair.
pub fn pair(code: u32, value: &str) -> (s: String)
    ensures
        s@ == group_text(group(code as nat, value@)),
{
    let mut s: String = String::new();
    push_decimal(&mut s, code as u64);
    push_text(&mut s, "\n");
    push_text(&mut s, value);
    push_text(&mut s, "\n");
    assert(s@ =~= group_text(group(code as nat, value@)));
    s
}

/// Append a group; `gs` are the groups before it.
fn push_pair(s: &mut String, code: u32, value: &str, gs: Ghost<Seq<Group>>) -> (next: Ghost<Seq<Group>>)
    requires
        old(s)@ == groups_text(gs@),
    ensures
        next@ == gs@.push(group(code as nat, value@)),
        final(s)@ == groups_text(next@),
{
    let text: String = pair(code, value);
    push_text(s, text.as_str());
    let ghost n = gs@.push(group(code as nat, value@));
    assert(n.drop_last() =~= gs@);
    Ghost(n)
}

// ---- Entities -----------------------------------------------------------

/// The layer of shape `i`. One layer per shape keeps colours separable in CAD
/// tools, which is how cutting jobs are usually organised.
pub open spec fn layer(i: nat) -> Seq<char> {
    "VECTIFY_"@ + decimal(i)
}

/// A colour as one number, red in the highest byte.
pub open spec fn true_color(c: Rgba8) -> nat {
    (c.r * 65536 + c.g * 256 + c.b) as nat
}

/// How many vertices an outline has: a closed polyline must not repeat its
/// first point as its last.
pub open spec fn vertex_count(o: Outline) -> int {
    if o.closed && o.points@.len() > 1 && o.returns {
        o.points@.len() - 1
    } else {
        o.points@.len() as int
    }
}

pub open spec fn vertex(q: Point, layer: Seq<char>, h: int, p: nat) -> Seq<Group> {
    seq![
        group(0, "VERTEX"@),
        group(8, layer),
        group(10, numeral(q.x as int, p)),
        group(20, numeral(h - q.y, p)),
        group(30, "0.0"@),
    ]
}

pub open spec fn vertices(points: Seq<Point>, layer: Seq<char>, h: int, p: nat) -> Seq<Group>
    decreases points.len(),
{
    if points.len() == 0 {
        seq![]
    } else {
        vertices(points.drop_last(), layer, h, p) + vertex(points.last(), layer, h, p)
    }
}

pub open spec fn polyline_head(closed: bool, layer: Seq<char>, color: Rgba8) -> Seq<Group> {
    seq![
        group(0, "POLYLINE"@),
        group(8, layer),
        group(420, decimal(true_color(color))),
        group(66, "1"@),
        group(10, "0.0"@),
        group(20, "0.0"@),
        group(30, "0.0"@),
        group(70, if closed { "1"@ } else { "0"@ }),
    ]
}

/// One outline; fewer than two points draw nothing.
pub open spec fn polyline(o: Outline, layer: Seq<char>, color: Rgba8, h: int, p: nat) -> Seq<
    Group,
> {
    if o.points@.len() < 2 {
        seq![]
    } else {
        polyline_head(o.closed, layer, color) + vertices(
            o.points@.take(vertex_count(o)),
            layer,
            h,
            p,
        ) + seq![group(0, "SEQEND"@), group(8, layer)]
    }
}

pub open spec fn polylines(
    list: Seq<Outline>,
    layer: Seq<char>,
    color: Rgba8,
    h: int,
    p: nat,
) -> Seq<Group>
    decreases list.len(),
{
    if list.len() == 0 {
        seq![]
    } else {
        polylines(list.drop_last(), layer, color, h, p) + polyline(list.last(), layer, color, h, p)
    }
}

pub open spec fn entities(cuts: Seq<Cut>, h: int, p: nat) -> Seq<Group>
    decreases cuts.len(),
{
    if cuts.len() == 0 {
        seq![]
    } else {
        entities(cuts.drop_last(), h, p) + polylines(
            cuts.last().outlines@,
            layer((cuts.len() - 1) as nat),
            cuts.last().color,
            h,
            p,
        )
    }
}

/// The header section: just the extents, which most readers use to fit the
/// view; then the opening of the entities.
pub open spec fn preamble(w: int, h: int, p: nat) -> Seq<Group> {
    seq![
        group(0, "SECTION"@),
        group(2, "HEADER"@),
        group(9, "$EXTMIN"@),
        group(10, "0.0"@),
        group(20, "0.0"@),
        group(9, "$EXTMAX"@),
        group(10, numeral(w, p)),
        group(20, numeral(h, p)),
        group(0, "ENDSEC"@),
        group(0, "SECTION"@),
        group(2, "ENTITIES"@),
    ]
}

/// The whole file as groups.
pub open spec fn document(cuts: Seq<Cut>, w: int, h: int, p: nat) -> Seq<Group> {
    preamble(w, h, p) + entities(cuts, h, p) + seq![group(0, "ENDSEC"@), group(0, "EOF"@)]
}

fn push_vertex(s: &mut String, q: Point, name: &str, h: i64, p: u32, gs: Ghost<Seq<Group>>) -> (next:
    Ghost<Seq<Group>>)
    requires
        old(s)@ == groups_text(gs@),
    ensures
        next@ == gs@ + vertex(q, name@, h as int, p as nat),
        final(s)@ == groups_text(next@),
{
    let gs1 = push_pair(s, 0, "VERTEX", gs);
    let gs2 = push_pair(s, 8, name, gs1);
    let x: String = num(q.x as i128, p);
    let gs3 = push_pair(s, 10, x.as_str(), gs2);
    let y: String = num(h as i128 - q.y as i128, p);
    let gs4 = push_pair(s, 20, y.as_str(), gs3);
    let gs5 = push_pair(s, 30, "0.0", gs4);
    assert(gs5@ =~= gs@ + vertex(q, name@, h as int, p as nat));
    gs5
}

fn push_polyline_head(s: &mut String, closed: bool, name: &str, color: Rgba8, gs: Ghost<Seq<Group>>) -> (next:
    Ghost<Seq<Group>>)
    requires
        old(s)@ == groups_text(gs@),
    ensures
        next@ == gs@ + polyline_head(closed, name@, color),
        final(s)@ == groups_text(next@),
{
    let gs1 = push_pair(s, 0, "POLYLINE", gs);
    let gs2 = push_pair(s, 8, name, gs1);
    let mut number: String = String::new();
    push_decimal(&mut number, color.r as u64 * 65536 + color.g as u64 * 256 + color.b as u64);
    assert(number@ =~= decimal(true_color(color)));
    let gs3 = push_pair(s, 420, number.as_str(), gs2);
    // Vertices follow.
    let gs4 = push_pair(s, 66, "1", gs3);
    let gs5 = push_pair(s, 10, "0.0", gs4);
    let gs6 = push_pair(s, 20, "0.0", gs5);
    let gs7 = push_pair(s, 30, "0.0", gs6);
    // Bit 1 marks the polyline closed.
    let flag: &str = if closed {
        "1"
    } else {
        "0"
    };
    let gs8 = push_pair(s, 70, flag, gs7);
    assert(gs8@ =~= gs@ + polyline_head(closed, name@, color));
    gs8
}

fn push_polyline(
    s: &mut String,
    o: &Outline,
    name: &str,
    color: Rgba8,
    h: i64,
    p: u32,
    gs: Ghost<Seq<Group>>,
) -> (next: Ghost<Seq<Group>>)
    requires
        old(s)@ == groups_text(gs@),
    ensures
        next@ == gs@ + polyline(*o, name@, color, h as int, p as nat),
        final(s)@ == groups_text(next@),
{
    if o.points.len() < 2 {
        assert(gs@ =~= gs@ + polyline(*o, name@, color, h as int, p as nat));
        return gs;
    }
    let start = push_polyline_head(s, o.closed, name, color, gs);
    let n: usize = if o.closed && o.returns {
        o.points.len() - 1
    } else {
        o.points.len()
    };
    let ghost used = o.points@.take(n as int);
    let mut cur: Ghost<Seq<Group>> = Ghost(start@);
    let mut i: usize = 0;
    assert(cur@ =~= start@ + vertices(used.take(0), name@, h as int, p as nat));
    while i < n
        invariant
            i <= n <= o.points@.len(),
            used == o.points@.take(n as int),
            cur@ == start@ + vertices(used.take(i as int), name@, h as int, p as nat),
            s@ == groups_text(cur@),
        decreases n - i,
    {
        let ghost before = cur@;
        cur = push_vertex(s, o.points[i], name, h, p, cur);
        proof {
            let more = used.take(i + 1);
            assert(more.drop_last() =~= used.take(i as int));
            assert(more.last() == o.points@[i as int]);
            assert(cur@ =~= start@ + vertices(more, name@, h as int, p as nat));
        }
        i = i + 1;
    }
    assert(used.take(n as int) =~= used);
    let end1 = push_pair(s, 0, "SEQEND", cur);
    let end2 = push_pair(s, 8, name, end1);
    assert(end2@ =~= gs@ + polyline(*o, name@, color, h as int, p as nat));
    end2
}

/// Write `cuts` as DXF. Sizes and points are in units of the decimal place
/// `places`.
pub fn write(cuts: &Vec<Cut>, width: i64, height: i64, places: u32) -> (s: String)
    ensures
        s@ == groups_text(document(cuts@, width as int, height as int, places as nat)),
{
    let p: u32 = places;
    let ghost h = height as int;
    let mut s: String = String::new();
    let gs0 = push_pair(&mut s, 0, "SECTION", Ghost(Seq::<Group>::empty()));
    let gs1 = push_pair(&mut s, 2, "HEADER", gs0);
    let gs2 = push_pair(&mut s, 9, "$EXTMIN", gs1);
    let gs3 = push_pair(&mut s, 10, "0.0", gs2);
    let gs4 = push_pair(&mut s, 20, "0.0", gs3);
    let gs5 = push_pair(&mut s, 9, "$EXTMAX", gs4);
    let wide: String = num(width as i128, p);
    let gs6 = push_pair(&mut s, 10, wide.as_str(), gs5);
    let high: String = num(height as i128, p);
    let gs7 = push_pair(&mut s, 20, high.as_str(), gs6);
    let gs8 = push_pair(&mut s, 0, "ENDSEC", gs7);
    let gs9 = push_pair(&mut s, 0, "SECTION", gs8);
    let start = push_pair(&mut s, 2, "ENTITIES", gs9);
    let ghost opening = preamble(width as int, h, p as nat);
    assert(start@ =~= opening);
    let mut cur: Ghost<Seq<Group>> = Ghost(start@);
    let mut i: usize = 0;
    assert(cur@ =~= opening + entities(cuts@.take(0), h, p as nat));
    while i < cuts.len()
        invariant
            i <= cuts@.len(),
            h == height,
            cur@ == opening + entities(cuts@.take(i as int), h, p as nat),
            s@ == groups_text(cur@),
        decreases cuts@.len() - i,
    {
        let cut: &Cut = &cuts[i];
        let mut name: String = String::new();
        push_text(&mut name, "VECTIFY_");
        push_decimal(&mut name, i as u64);
        assert(name@ =~= layer(i as nat));
        let ghost before = cur@;
        let mut j: usize = 0;
        assert(cur@ =~= before + polylines(cut.outlines@.take(0), name@, cut.color, h, p as nat));
        while j < cut.outlines.len()
            invariant
                j <= cut.outlines@.len(),
                h == height,
                cur@ == before + polylines(
                    cut.outlines@.take(j as int),
                    name@,
                    cut.color,
                    h,
                    p as nat,
                ),
                s@ == groups_text(cur@),
            decreases cut.outlines@.len() - j,
        {
            cur = push_polyline(&mut s, &cut.outlines[j], name.as_str(), cut.color, height, p, cur);
            proof {
                let more = cut.outlines@.take(j + 1);
                assert(more.drop_last() =~= cut.outlines@.take(j as int));
                assert(cur@ =~= before + polylines(more, name@, cut.color, h, p as nat));
            }
            j = j + 1;
        }
        proof {
            assert(cut.outlines@.take(j as int) =~= cut.outlines@);
            let more = cuts@.take(i + 1);
            assert(more.drop_last() =~= cuts@.take(i as int));
            assert(cur@ =~= opening + entities(more, h, p as nat));
        }
        i = i + 1;
    }
    assert(cuts@.take(i as int) =~= cuts@);
    let end1 = push_pair(&mut s, 0, "ENDSEC", cur);
    let end2 = push_pair(&mut s, 0, "EOF", end1);
    assert(end2@ =~= document(cuts@, width as int, h, p as nat));
    s
}

// ---- Laws ---------------------------------------------------------------

/// The number of line ends in `s`.
pub open spec fn line_ends(s: Seq<char>) -> nat
    decreases s.len(),
{
    if s.len() == 0 {
        0
    } else {
        line_ends(s.drop_last()) + if s.last() == '\n' {
            1nat
        } else {
            0
        }
    }
}

/// Whether every value stands on one line.
pub open spec fn single_lines(g: Seq<Group>) -> bool {
    forall|i: int| 0 <= i < g.len() ==> line_ends(#[trigger] g[i].value) == 0
}

proof fn lemma_line_ends_add(a: Seq<char>, b: Seq<char>)
    ensures
        line_ends(a + b) == line_ends(a) + line_ends(b),
    decreases b.len(),
{
    if b.len() == 0 {
        assert(a + b =~= a);
    } else {
        assert((a + b).drop_last() =~= a + b.drop_last());
        lemma_line_ends_add(a, b.drop_last());
    }
}

proof fn lemma_no_line_end(s: Seq<char>)
    requires
        forall|i: int| 0 <= i < s.len() ==> #[trigger] s[i] != '\n',
    ensures
        line_ends(s) == 0,
    decreases s.len(),
{
    if s.len() > 0 {
        assert forall|i: int| 0 <= i < s.drop_last().len() implies #[trigger] s.drop_last()[i]
            != '\n' by {
            assert(s.drop_last()[i] == s[i]);
        }
        lemma_no_line_end(s.drop_last());
    }
}

proof fn lemma_line_pairs(g: Seq<Group>)
    requires
        single_lines(g),
    ensures
        line_ends(groups_text(g)) == 2 * g.len(),
    decreases g.len(),
{
    if g.len() > 0 {
        assert forall|i: int| 0 <= i < g.drop_last().len() implies line_ends(
            #[trigger] g.drop_last()[i].value,
        ) == 0 by {
            assert(g.drop_last()[i] == g[i]);
        }
        lemma_line_pairs(g.drop_last());
        let last = g.last();
        lemma_decimal_digits(last.code);
        lemma_no_line_end(decimal(last.code));
        reveal_strlit("\n");
        assert("\n"@ =~= seq!['\n']);
        assert(line_ends("\n"@) == 1) by {
            assert("\n"@.drop_last() =~= Seq::<char>::empty());
            assert(line_ends(Seq::<char>::empty()) == 0);
            assert("\n"@.last() == '\n');
        }
        lemma_line_ends_add(decimal(last.code), "\n"@);
        lemma_line_ends_add(decimal(last.code) + "\n"@, last.value);
        lemma_line_ends_add(decimal(last.code) + "\n"@ + last.value, "\n"@);
        lemma_line_ends_add(groups_text(g.drop_last()), group_text(last));
    }
}

proof fn lemma_numeral_line(v: int, p: nat)
    ensures
        line_ends(numeral(v, p)) == 0,
{
    let m = if v < 0 {
        (-v) as nat
    } else {
        v as nat
    };
    lemma_magnitude_characters(m, p);
    lemma_no_line_end(numeral(v, p));
}

proof fn lemma_layer_line(i: nat)
    ensures
        line_ends(layer(i)) == 0,
{
    reveal_strlit("VECTIFY_");
    lemma_decimal_digits(i);
    lemma_no_line_end(layer(i));
}

proof fn lemma_single_add(a: Seq<Group>, b: Seq<Group>)
    requires
        single_lines(a),
        single_lines(b),
    ensures
        single_lines(a + b),
{
    assert forall|i: int| 0 <= i < (a + b).len() implies line_ends(#[trigger] (a + b)[i].value)
        == 0 by {
        if i < a.len() {
            assert((a + b)[i] == a[i]);
        } else {
            assert((a + b)[i] == b[i - a.len()]);
        }
    }
}

/// The fixed values of the format stand on one line each.
proof fn lemma_words()
    ensures
        line_ends("SECTION"@) == 0,
        line_ends("HEADER"@) == 0,
        line_ends("$EXTMIN"@) == 0,
        line_ends("$EXTMAX"@) == 0,
        line_ends("0.0"@) == 0,
        line_ends("ENDSEC"@) == 0,
        line_ends("ENTITIES"@) == 0,
        line_ends("POLYLINE"@) == 0,
        line_ends("VERTEX"@) == 0,
        line_ends("SEQEND"@) == 0,
        line_ends("EOF"@) == 0,
        line_ends("0"@) == 0,
        line_ends("1"@) == 0,
{
    reveal_strlit("SECTION");
    lemma_no_line_end("SECTION"@);
    reveal_strlit("HEADER");
    lemma_no_line_end("HEADER"@);
    reveal_strlit("$EXTMIN");
    lemma_no_line_end("$EXTMIN"@);
    reveal_strlit("$EXTMAX");
    lemma_no_line_end("$EXTMAX"@);
    reveal_strlit("0.0");
    lemma_no_line_end("0.0"@);
    reveal_strlit("ENDSEC");
    lemma_no_line_end("ENDSEC"@);
    reveal_strlit("ENTITIES");
    lemma_no_line_end("ENTITIES"@);
    reveal_strlit("POLYLINE");
    lemma_no_line_end("POLYLINE"@);
    reveal_strlit("VERTEX");
    lemma_no_line_end("VERTEX"@);
    reveal_strlit("SEQEND");
    lemma_no_line_end("SEQEND"@);
    reveal_strlit("EOF");
    lemma_no_line_end("EOF"@);
    reveal_strlit("0");
    lemma_no_line_end("0"@);
    reveal_strlit("1");
    lemma_no_line_end("1"@);
}

proof fn lemma_vertices_single(points: Seq<Point>, layer: Seq<char>, h: int, p: nat)
    requires
        line_ends(layer) == 0,
    ensures
        single_lines(vertices(points, layer, h, p)),
    decreases points.len(),
{
    if points.len() > 0 {
        lemma_vertices_single(points.drop_last(), layer, h, p);
        let q = points.last();
        lemma_words();
        lemma_numeral_line(q.x as int, p);
        lemma_numeral_line(h - q.y, p);
        assert(single_lines(vertex(q, layer, h, p)));
        lemma_single_add(
            vertices(points.drop_last(), layer, h, p),
            vertex(q, layer, h, p),
        );
    }
}

proof fn lemma_polylines_single(
    list: Seq<Outline>,
    layer: Seq<char>,
    color: Rgba8,
    h: int,
    p: nat,
)
    requires
        line_ends(layer) == 0,
    ensures
        single_lines(polylines(list, layer, color, h, p)),
    decreases list.len(),
{
    if list.len() > 0 {
        lemma_polylines_single(list.drop_last(), layer, color, h, p);
        let o = list.last();
        assert(single_lines(polyline(o, layer, color, h, p))) by {
            lemma_words();
            lemma_decimal_digits(true_color(color));
            lemma_no_line_end(decimal(true_color(color)));
            let head = polyline_head(o.closed, layer, color);
            let used = o.points@.take(vertex_count(o));
            let body = vertices(used, layer, h, p);
            let tail = seq![group(0, "SEQEND"@), group(8, layer)];
            assert(single_lines(head));
            assert(single_lines(tail));
            lemma_vertices_single(used, layer, h, p);
            lemma_single_add(head, body);
            lemma_single_add(head + body, tail);
        }
        lemma_single_add(
            polylines(list.drop_last(), layer, color, h, p),
            polyline(o, layer, color, h, p),
        );
    }
}

proof fn lemma_entities_single(cuts: Seq<Cut>, h: int, p: nat)
    ensures
        single_lines(entities(cuts, h, p)),
    decreases cuts.len(),
{
    if cuts.len() > 0 {
        lemma_entities_single(cuts.drop_last(), h, p);
        let name = layer((cuts.len() - 1) as nat);
        lemma_layer_line((cuts.len() - 1) as nat);
        lemma_polylines_single(cuts.last().outlines@, name, cuts.last().color, h, p);
        lemma_single_add(
            entities(cuts.drop_last(), h, p),
            polylines(cuts.last().outlines@, name, cuts.last().color, h, p),
        );
    }
}

/// Group codes come in pairs: a file has exactly two lines to every group, one
/// for the code and one for the value, so never an odd number of lines.
pub proof fn law_group_codes_come_in_pairs(cuts: Seq<Cut>, w: int, h: int, p: nat)
    ensures
        line_ends(groups_text(document(cuts, w, h, p))) == 2 * document(cuts, w, h, p).len(),
{
    lemma_words();
    lemma_numeral_line(w, p);
    lemma_numeral_line(h, p);
    lemma_entities_single(cuts, h, p);
    let head = preamble(w, h, p);
    let body = entities(cuts, h, p);
    let tail = seq![group(0, "ENDSEC"@), group(0, "EOF"@)];
    assert(single_lines(head));
    assert(single_lines(tail));
    lemma_single_add(head, body);
    lemma_single_add(head + body, tail);
    lemma_line_pairs(document(cuts, w, h, p));
}

/// A closed outline that comes back to its first point is written without the
/// repeat: every vertex is one of its points, and the last one is left out.
pub proof fn law_closed_outline_repeats_nothing(o: Outline)
    requires
        o.closed,
        o.returns,
        o.points@.len() >= 2,
    ensures
        vertex_count(o) == o.points@.len() - 1,
        o.points@.take(vertex_count(o)).len() == o.points@.len() - 1,
        o.points@.take(vertex_count(o)) == o.points@.drop_last(),
{
    assert(o.points@.take(vertex_count(o)) =~= o.points@.drop_last());
}

} // verus!
