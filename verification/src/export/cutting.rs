//! Reading DXF files back: what a cutting machine makes of their groups.

use crate::color::Rgba8;
use crate::export::dxf::{
    document, entities, group, layer, polyline, polyline_head, polylines, preamble, true_color,
    vertex, vertices, Cut, Group, Outline,
};
use crate::export::reading::{law_numbers_read_back, law_whole_numbers_read_back, number, scanned};
use crate::export::Point;
use crate::text::decimal;
use vstd::prelude::*;

verus! {

/// A line that the tool follows. Positions are in units of the last decimal place, with
/// the y axis running up.
pub ghost struct Traced {
    pub layer: Seq<char>,
    pub rgb: (int, int, int),
    pub closed: bool,
    pub points: Seq<(int, int)>,
}

/// A reader in the middle of a file. It is no longer `sound` once it met something that
/// it cannot follow.
pub ghost struct Table {
    /// The section being read, if any.
    pub section: Seq<char>,
    /// The variable of the header being read.
    pub variable: Seq<char>,
    /// The entity being read.
    pub kind: Seq<char>,
    pub layer: Seq<char>,
    pub rgb: (int, int, int),
    pub closed: bool,
    pub x: int,
    pub points: Seq<(int, int)>,
    pub traced: Seq<Traced>,
    /// The smallest and the largest corner of the drawing.
    pub low: (int, int),
    pub high: (int, int),
    pub ended: bool,
    pub sound: bool,
}

/// A reader before the first group.
pub open spec fn bare() -> Table {
    Table {
        section: seq![],
        variable: seq![],
        kind: seq![],
        layer: seq![],
        rgb: (0, 0, 0),
        closed: false,
        x: 0,
        points: seq![],
        traced: seq![],
        low: (0, 0),
        high: (0, 0),
        ended: false,
        sound: true,
    }
}

/// Begin what a group of code 0 names.
pub open spec fn begun(t: Table, value: Seq<char>) -> Table {
    if value == "POLYLINE"@ {
        Table { kind: value, points: seq![], sound: t.sound && t.section == "ENTITIES"@, ..t }
    } else if value == "VERTEX"@ {
        Table { kind: value, sound: t.sound && (t.kind == "POLYLINE"@ || t.kind == value), ..t }
    } else if value == "SEQEND"@ {
        Table {
            kind: value,
            traced: t.traced.push(
                Traced { layer: t.layer, rgb: t.rgb, closed: t.closed, points: t.points },
            ),
            sound: t.sound && (t.kind == "POLYLINE"@ || t.kind == "VERTEX"@),
            ..t
        }
    } else if value == "SECTION"@ {
        Table { kind: value, sound: t.sound && t.section.len() == 0, ..t }
    } else if value == "ENDSEC"@ {
        Table { kind: value, section: seq![], sound: t.sound && t.section.len() > 0, ..t }
    } else if value == "EOF"@ {
        Table { kind: value, ended: true, sound: t.sound && t.section.len() == 0, ..t }
    } else {
        Table { sound: false, ..t }
    }
}

/// A y coordinate, which ends a position.
pub open spec fn located(t: Table, y: int) -> Table {
    if t.kind == "VERTEX"@ {
        Table { points: t.points.push((t.x, y)), ..t }
    } else if t.kind == "SECTION"@ && t.variable == "$EXTMIN"@ {
        Table { low: (t.x, y), ..t }
    } else if t.kind == "SECTION"@ && t.variable == "$EXTMAX"@ {
        Table { high: (t.x, y), ..t }
    } else {
        t
    }
}

/// Read a group. Positions are in units of the `p`-th decimal place.
pub open spec fn taken(t: Table, g: Group, p: nat) -> Table {
    if t.ended {
        Table { sound: false, ..t }
    } else if g.code == 0 {
        begun(t, g.value)
    } else if g.code == 2 {
        Table { section: g.value, ..t }
    } else if g.code == 9 {
        Table { variable: g.value, ..t }
    } else if g.code == 8 {
        if t.kind == "POLYLINE"@ {
            Table { layer: g.value, ..t }
        } else {
            Table { sound: t.sound && g.value == t.layer, ..t }
        }
    } else if g.code == 10 {
        Table { x: number(g.value, p), ..t }
    } else if g.code == 20 {
        located(t, number(g.value, p))
    } else if g.code == 70 {
        Table { closed: g.value == "1"@, ..t }
    } else if g.code == 420 {
        let n = number(g.value, 0);
        Table { rgb: (n / 65536, n / 256 % 256, n % 256), ..t }
    } else {
        t
    }
}

/// Read groups.
pub open spec fn followed(t: Table, gs: Seq<Group>, p: nat) -> Table
    decreases gs.len(),
{
    if gs.len() == 0 {
        t
    } else {
        taken(followed(t, gs.drop_last(), p), gs.last(), p)
    }
}

proof fn lemma_followed_add(t: Table, a: Seq<Group>, b: Seq<Group>, p: nat)
    ensures
        followed(t, a + b, p) == followed(followed(t, a, p), b, p),
    decreases b.len(),
{
    if b.len() == 0 {
        assert(a + b =~= a);
    } else {
        assert((a + b).drop_last() =~= a + b.drop_last());
        assert((a + b).last() == b.last());
        lemma_followed_add(t, a, b.drop_last(), p);
    }
}

proof fn lemma_words()
    ensures
        "VERTEX"@ != "POLYLINE"@,
        "SEQEND"@ != "POLYLINE"@,
        "SEQEND"@ != "VERTEX"@,
        "SECTION"@ != "POLYLINE"@,
        "SECTION"@ != "VERTEX"@,
        "SECTION"@ != "SEQEND"@,
        "ENDSEC"@ != "POLYLINE"@,
        "ENDSEC"@ != "VERTEX"@,
        "ENDSEC"@ != "SEQEND"@,
        "ENDSEC"@ != "SECTION"@,
        "EOF"@ != "POLYLINE"@,
        "EOF"@ != "VERTEX"@,
        "EOF"@ != "SEQEND"@,
        "EOF"@ != "SECTION"@,
        "EOF"@ != "ENDSEC"@,
        "$EXTMIN"@ != "$EXTMAX"@,
        "0"@ != "1"@,
        "HEADER"@.len() > 0,
        "ENTITIES"@.len() > 0,
{
    reveal_strlit("VERTEX");
    reveal_strlit("POLYLINE");
    reveal_strlit("SEQEND");
    reveal_strlit("SECTION");
    reveal_strlit("ENDSEC");
    reveal_strlit("EOF");
    reveal_strlit("$EXTMIN");
    reveal_strlit("$EXTMAX");
    reveal_strlit("0");
    reveal_strlit("1");
    reveal_strlit("HEADER");
    reveal_strlit("ENTITIES");
    assert("VERTEX"@[0] == 'V' && "SEQEND"@[0] == 'S' && "ENDSEC"@[0] == 'E');
    assert("$EXTMIN"@[5] == 'I' && "$EXTMAX"@[5] == 'A');
    assert("0"@[0] == '0' && "1"@[0] == '1');
    assert("VERTEX"@.len() == 6 && "POLYLINE"@.len() == 8 && "SECTION"@.len() == 7 && "EOF"@.len()
        == 3);
}

proof fn lemma_zero_reads(p: nat)
    ensures
        number("0.0"@, p) == 0,
{
    reveal_strlit("0.0");
    let s = "0.0"@;
    assert(s.drop_last() =~= seq!['0', '.']);
    assert(seq!['0', '.'].drop_last() =~= seq!['0']);
    assert(seq!['0'].drop_last() =~= Seq::<char>::empty());
    assert(seq!['0'].last() == '0' && seq!['0', '.'].last() == '.');
    assert(scanned(Seq::<char>::empty()).value == 0);
    assert(scanned(seq!['0']).value == 0);
    assert(scanned(seq!['0', '.']).value == 0);
    assert(scanned(s).value == 0);
    assert(forall|e: int| #[trigger] (0 * e) == 0);
}

/// The points of an outline on the page, without the one that only returns to the start
/// of a closed line.
pub open spec fn points_traced(o: Outline, h: int) -> Seq<(int, int)> {
    let n = o.points@.len();
    let used = if o.closed && o.returns && n > 1 {
        (n - 1) as nat
    } else {
        n
    };
    Seq::new(used, |k: int| (o.points@[k].x as int, h - o.points@[k].y))
}

/// The lines that the outlines of shape `i` are followed as. An outline of fewer than two
/// points is no line.
pub open spec fn outlines_traced(list: Seq<Outline>, i: int, color: Rgba8, h: int) -> Seq<Traced>
    decreases list.len(),
{
    if list.len() == 0 {
        seq![]
    } else {
        let before = outlines_traced(list.drop_last(), i, color, h);
        if list.last().points@.len() < 2 {
            before
        } else {
            before.push(
                Traced {
                    layer: "VECTIFY_"@ + decimal(i as nat),
                    rgb: (color.r as int, color.g as int, color.b as int),
                    closed: list.last().closed,
                    points: points_traced(list.last(), h),
                },
            )
        }
    }
}

/// The lines that the first shapes are followed as, shape by shape.
pub open spec fn cuts_traced(cuts: Seq<Cut>, h: int) -> Seq<Traced>
    decreases cuts.len(),
{
    if cuts.len() == 0 {
        seq![]
    } else {
        cuts_traced(cuts.drop_last(), h) + outlines_traced(
            cuts.last().outlines@,
            cuts.len() - 1,
            cuts.last().color,
            h,
        )
    }
}

/// Between two entities of a drawing.
pub open spec fn is_between(t: Table) -> bool {
    t.section == "ENTITIES"@ && t.sound && !t.ended
}

/// What no entity changes.
pub open spec fn keeps(t: Table, u: Table) -> bool {
    &&& u.section == t.section
    &&& u.sound == t.sound
    &&& u.ended == t.ended
    &&& u.low == t.low
    &&& u.high == t.high
}

#[verifier::rlimit(40)]
proof fn lemma_head(t: Table, closed: bool, name: Seq<char>, color: Rgba8, p: nat)
    requires
        is_between(t),
    ensures
        ({
            let u = followed(t, polyline_head(closed, name, color), p);
            &&& keeps(t, u)
            &&& u.traced == t.traced
            &&& u.kind == "POLYLINE"@
            &&& u.layer == name
            &&& u.rgb == (color.r as int, color.g as int, color.b as int)
            &&& u.closed == closed
            &&& u.points.len() == 0
        }),
{
    lemma_words();
    let gs = polyline_head(closed, name, color);
    let n = true_color(color);
    let rgb = (color.r as int, color.g as int, color.b as int);
    assert(number(decimal(n), 0) == n) by {
        law_whole_numbers_read_back(n);
    }
    assert(n / 65536 == rgb.0 && n / 256 % 256 == rgb.1 && n % 256 == rgb.2);
    assert(gs.take(0) =~= Seq::<Group>::empty());
    let t1 = Table { kind: "POLYLINE"@, points: seq![], ..t };
    let t2 = Table { layer: name, ..t1 };
    let t3 = Table { rgb, ..t2 };
    let t5 = Table { x: number("0.0"@, p), ..t3 };
    lemma_one_more(t, gs, 0, p);
    assert(followed(t, gs.take(1), p) == t1);
    lemma_one_more(t, gs, 1, p);
    assert(followed(t, gs.take(2), p) == t2);
    lemma_one_more(t, gs, 2, p);
    assert(followed(t, gs.take(3), p) == t3);
    lemma_one_more(t, gs, 3, p);
    assert(followed(t, gs.take(4), p) == t3);
    lemma_one_more(t, gs, 4, p);
    assert(followed(t, gs.take(5), p) == t5);
    lemma_one_more(t, gs, 5, p);
    assert(followed(t, gs.take(6), p) == t5);
    lemma_one_more(t, gs, 6, p);
    assert(followed(t, gs.take(7), p) == t5);
    lemma_one_more(t, gs, 7, p);
    assert(followed(t, gs.take(8), p) == (Table { closed, ..t5 }));
    assert(gs.take(8) =~= gs);
}

/// Reading the first `k + 1` groups is reading the first `k` and then one more.
proof fn lemma_one_more(t: Table, gs: Seq<Group>, k: int, p: nat)
    requires
        0 <= k < gs.len(),
    ensures
        followed(t, gs.take(k + 1), p) == taken(followed(t, gs.take(k), p), gs[k], p),
{
    assert(gs.take(k + 1).drop_last() =~= gs.take(k));
    assert(gs.take(k + 1).last() == gs[k]);
}

proof fn lemma_vertex(t: Table, q: Point, h: int, p: nat)
    requires
        is_between(t),
        t.kind == "POLYLINE"@ || t.kind == "VERTEX"@,
    ensures
        ({
            let u = followed(t, vertex(q, t.layer, h, p), p);
            u == (Table {
                kind: "VERTEX"@,
                x: q.x as int,
                points: t.points.push((q.x as int, h - q.y)),
                ..t
            })
        }),
{
    lemma_words();
    let gs = vertex(q, t.layer, h, p);
    law_numbers_read_back(q.x as int, p);
    law_numbers_read_back(h - q.y, p);
    assert(gs.take(0) =~= Seq::<Group>::empty());
    lemma_one_more(t, gs, 0, p);
    lemma_one_more(t, gs, 1, p);
    lemma_one_more(t, gs, 2, p);
    lemma_one_more(t, gs, 3, p);
    lemma_one_more(t, gs, 4, p);
    assert(gs.take(5) =~= gs);
}

proof fn lemma_vertices(t: Table, points: Seq<Point>, h: int, p: nat)
    requires
        is_between(t),
        t.kind == "POLYLINE"@,
        t.points.len() == 0,
    ensures
        ({
            let u = followed(t, vertices(points, t.layer, h, p), p);
            &&& keeps(t, u)
            &&& u.traced == t.traced
            &&& u.kind == "POLYLINE"@ || u.kind == "VERTEX"@
            &&& u.layer == t.layer
            &&& u.rgb == t.rgb
            &&& u.closed == t.closed
            &&& u.points == Seq::new(points.len(), |k: int| (points[k].x as int, h - points[k].y))
        }),
    decreases points.len(),
{
    let spots = Seq::new(points.len(), |k: int| (points[k].x as int, h - points[k].y));
    if points.len() == 0 {
        assert(t.points =~= spots);
    } else {
        let rest = points.drop_last();
        lemma_vertices(t, rest, h, p);
        let u = followed(t, vertices(rest, t.layer, h, p), p);
        lemma_vertex(u, points.last(), h, p);
        lemma_followed_add(
            t,
            vertices(rest, t.layer, h, p),
            vertex(points.last(), t.layer, h, p),
            p,
        );
        assert(u.points.push((points.last().x as int, h - points.last().y)) =~= spots);
    }
}

proof fn lemma_polyline(t: Table, o: Outline, i: int, color: Rgba8, h: int, p: nat)
    requires
        is_between(t),
        i >= 0,
    ensures
        ({
            let u = followed(t, polyline(o, layer(i as nat), color, h, p), p);
            &&& keeps(t, u)
            &&& u.traced == t.traced + outlines_traced(seq![o], i, color, h)
        }),
{
    let one = seq![o];
    assert(one.last() == o && one.drop_last().len() == 0);
    assert(outlines_traced(one.drop_last(), i, color, h) =~= seq![]);
    if o.points@.len() < 2 {
        assert(t.traced + outlines_traced(one, i, color, h) =~= t.traced);
    } else {
        lemma_words();
        let name = layer(i as nat);
        let head = polyline_head(o.closed, name, color);
        let used = o.points@.take(crate::export::dxf::vertex_count(o));
        let body = vertices(used, name, h, p);
        let end = seq![group(0, "SEQEND"@), group(8, name)];
        lemma_head(t, o.closed, name, color, p);
        let t1 = followed(t, head, p);
        lemma_followed_add(t, head, body, p);
        lemma_vertices(t1, used, h, p);
        let t2 = followed(t, head + body, p);
        lemma_followed_add(t, head + body, end, p);
        assert(end.take(0) =~= Seq::<Group>::empty());
        lemma_one_more(t2, end, 0, p);
        lemma_one_more(t2, end, 1, p);
        assert(end.take(2) =~= end);
        assert(t2.points =~= points_traced(o, h));
        let line = Traced {
            layer: "VECTIFY_"@ + decimal(i as nat),
            rgb: (color.r as int, color.g as int, color.b as int),
            closed: o.closed,
            points: points_traced(o, h),
        };
        assert(t.traced.push(line) =~= t.traced + outlines_traced(one, i, color, h));
    }
}

proof fn lemma_polylines(t: Table, list: Seq<Outline>, i: int, color: Rgba8, h: int, p: nat)
    requires
        is_between(t),
        i >= 0,
    ensures
        ({
            let u = followed(t, polylines(list, layer(i as nat), color, h, p), p);
            &&& keeps(t, u)
            &&& u.traced == t.traced + outlines_traced(list, i, color, h)
        }),
    decreases list.len(),
{
    if list.len() == 0 {
        assert(t.traced + outlines_traced(list, i, color, h) =~= t.traced);
    } else {
        let rest = list.drop_last();
        let name = layer(i as nat);
        lemma_polylines(t, rest, i, color, h, p);
        let u = followed(t, polylines(rest, name, color, h, p), p);
        lemma_polyline(u, list.last(), i, color, h, p);
        lemma_followed_add(
            t,
            polylines(rest, name, color, h, p),
            polyline(list.last(), name, color, h, p),
            p,
        );
        let one = seq![list.last()];
        assert(one.last() == list.last() && one.drop_last().len() == 0);
        assert(outlines_traced(one.drop_last(), i, color, h) =~= seq![]);
        assert(t.traced + outlines_traced(rest, i, color, h) + outlines_traced(one, i, color, h)
            =~= t.traced + outlines_traced(list, i, color, h));
    }
}

proof fn lemma_entities(t: Table, cuts: Seq<Cut>, h: int, p: nat)
    requires
        is_between(t),
    ensures
        ({
            let u = followed(t, entities(cuts, h, p), p);
            &&& keeps(t, u)
            &&& u.traced == t.traced + cuts_traced(cuts, h)
        }),
    decreases cuts.len(),
{
    if cuts.len() == 0 {
        assert(t.traced + cuts_traced(cuts, h) =~= t.traced);
    } else {
        let rest = cuts.drop_last();
        let i = cuts.len() - 1;
        lemma_entities(t, rest, h, p);
        let u = followed(t, entities(rest, h, p), p);
        lemma_polylines(u, cuts.last().outlines@, i, cuts.last().color, h, p);
        lemma_followed_add(
            t,
            entities(rest, h, p),
            polylines(cuts.last().outlines@, layer(i as nat), cuts.last().color, h, p),
            p,
        );
        assert(t.traced + cuts_traced(rest, h) + outlines_traced(
            cuts.last().outlines@,
            i,
            cuts.last().color,
            h,
        ) =~= t.traced + cuts_traced(cuts, h));
    }
}

proof fn lemma_preamble(w: int, h: int, p: nat)
    ensures
        ({
            let u = followed(bare(), preamble(w, h, p), p);
            &&& is_between(u)
            &&& u.traced.len() == 0
            &&& u.low == (0int, 0int)
            &&& u.high == (w, h)
        }),
{
    lemma_words();
    lemma_zero_reads(p);
    law_numbers_read_back(w, p);
    law_numbers_read_back(h, p);
    let gs = preamble(w, h, p);
    assert(gs.take(0) =~= Seq::<Group>::empty());
    lemma_one_more(bare(), gs, 0, p);
    lemma_one_more(bare(), gs, 1, p);
    lemma_one_more(bare(), gs, 2, p);
    lemma_one_more(bare(), gs, 3, p);
    lemma_one_more(bare(), gs, 4, p);
    lemma_one_more(bare(), gs, 5, p);
    lemma_one_more(bare(), gs, 6, p);
    lemma_one_more(bare(), gs, 7, p);
    lemma_one_more(bare(), gs, 8, p);
    lemma_one_more(bare(), gs, 9, p);
    lemma_one_more(bare(), gs, 10, p);
    assert(gs.take(11) =~= gs);
}

/// Following a DXF file cuts every outline of two or more points once, in order, on the
/// layer of its shape and in its shape's colour, with the y axis running up from the
/// bottom of the page. A closed line is closed by its flag alone. The extents are the
/// page, and nothing else is in the file.
pub proof fn law_dxf_cuts_the_outlines(cuts: Seq<Cut>, w: int, h: int, p: nat)
    ensures
        ({
            let t = followed(bare(), document(cuts, w, h, p), p);
            &&& t.traced == cuts_traced(cuts, h)
            &&& t.low == (0int, 0int)
            &&& t.high == (w, h)
            &&& t.ended
            &&& t.sound
        }),
{
    lemma_words();
    let top = preamble(w, h, p);
    let body = entities(cuts, h, p);
    let end = seq![group(0, "ENDSEC"@), group(0, "EOF"@)];
    lemma_preamble(w, h, p);
    let t1 = followed(bare(), top, p);
    lemma_followed_add(bare(), top, body, p);
    lemma_entities(t1, cuts, h, p);
    let t2 = followed(bare(), top + body, p);
    lemma_followed_add(bare(), top + body, end, p);
    assert(end.take(0) =~= Seq::<Group>::empty());
    lemma_one_more(t2, end, 0, p);
    lemma_one_more(t2, end, 1, p);
    assert(end.take(2) =~= end);
    assert(t1.traced + cuts_traced(cuts, h) =~= cuts_traced(cuts, h));
}

} // verus!
