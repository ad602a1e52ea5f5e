//! Reading SVG files back: what a browser makes of their paths and attributes.

use crate::color::{hex_form, Rgba8};
use crate::export::reading::{law_numbers_read_back, lemma_numeral_word, number};
use crate::export::svg::{
    backdrop, coords, declaration, flag, opacity, opening, paint, path_text, paths_text, seg_text,
    segs_text, shape_text,
};
use crate::export::{numeral, Point};
use crate::model::Shape;
use crate::path::{Seg, SubPath};
use vstd::prelude::*;

verus! {

// ---- Path data ----------------------------------------------------------

/// A step of a path, in units of the last decimal place.
pub ghost enum Leg {
    Line(int, int),
    Cubic(int, int, int, int, int, int),
    Arc {
        rx: int,
        ry: int,
        turned: int,
        large: bool,
        sweep: bool,
        x: int,
        y: int,
    },
}

/// A path from its start.
pub ghost struct Stroke {
    pub start: (int, int),
    pub legs: Seq<Leg>,
    pub closed: bool,
}

/// A reader of path data. It is no longer `sound` once it met something that it cannot
/// follow.
pub ghost struct Pen {
    /// The argument being read.
    pub word: Seq<char>,
    /// The arguments before it.
    pub args: Seq<Seq<char>>,
    /// The command that they belong to.
    pub letter: Option<char>,
    /// What was drawn before that command.
    pub strokes: Seq<Stroke>,
    pub sound: bool,
}

/// A reader of nothing yet.
pub open spec fn fresh() -> Pen {
    Pen { word: seq![], args: seq![], letter: None, strokes: seq![], sound: true }
}

/// Draw one more step of the last path.
pub open spec fn extended(strokes: Seq<Stroke>, leg: Leg) -> Seq<Stroke> {
    strokes.drop_last().push(Stroke { legs: strokes.last().legs.push(leg), ..strokes.last() })
}

/// Close the last path.
pub open spec fn shut(strokes: Seq<Stroke>) -> Seq<Stroke> {
    strokes.drop_last().push(Stroke { closed: true, ..strokes.last() })
}

/// Carry out a command whose arguments are all there.
pub open spec fn carried_out(
    strokes: Seq<Stroke>,
    letter: char,
    args: Seq<Seq<char>>,
    p: nat,
) -> Option<Seq<Stroke>> {
    let at = |i: int| number(args[i], p);
    if letter == 'M' && args.len() == 2 {
        Some(strokes.push(Stroke { start: (at(0), at(1)), legs: seq![], closed: false }))
    } else if strokes.len() == 0 || strokes.last().closed {
        None
    } else if letter == 'L' && args.len() == 2 {
        Some(extended(strokes, Leg::Line(at(0), at(1))))
    } else if letter == 'C' && args.len() == 6 {
        Some(extended(strokes, Leg::Cubic(at(0), at(1), at(2), at(3), at(4), at(5))))
    } else if letter == 'A' && args.len() == 7 {
        Some(
            extended(
                strokes,
                Leg::Arc {
                    rx: at(0),
                    ry: at(1),
                    turned: at(2),
                    large: number(args[3], 0) != 0,
                    sweep: number(args[4], 0) != 0,
                    x: at(5),
                    y: at(6),
                },
            ),
        )
    } else if letter == 'Z' && args.len() == 0 {
        Some(shut(strokes))
    } else {
        None
    }
}

/// Carry out the command being read.
pub open spec fn settled(v: Pen, p: nat) -> Pen {
    let args = if v.word.len() > 0 {
        v.args.push(v.word)
    } else {
        v.args
    };
    match v.letter {
        None => Pen { sound: v.sound && args.len() == 0, word: seq![], args: seq![], ..v },
        Some(letter) => match carried_out(v.strokes, letter, args, p) {
            Some(strokes) => Pen { strokes, ..fresh_like(v.sound) },
            None => Pen { strokes: v.strokes, ..fresh_like(false) },
        },
    }
}

pub open spec fn fresh_like(sound: bool) -> Pen {
    Pen { sound, ..fresh() }
}

pub open spec fn is_command(c: char) -> bool {
    c == 'M' || c == 'L' || c == 'C' || c == 'A' || c == 'Z'
}

/// Read one character.
pub open spec fn moved(v: Pen, c: char, p: nat) -> Pen {
    if is_command(c) {
        Pen { letter: Some(c), ..settled(v, p) }
    } else if c == ' ' {
        Pen { args: v.args.push(v.word), word: seq![], ..v }
    } else {
        Pen { word: v.word.push(c), ..v }
    }
}

/// Read path data.
pub open spec fn penned(v: Pen, s: Seq<char>, p: nat) -> Pen
    decreases s.len(),
{
    if s.len() == 0 {
        v
    } else {
        moved(penned(v, s.drop_last(), p), s.last(), p)
    }
}

pub proof fn lemma_penned_add(v: Pen, a: Seq<char>, b: Seq<char>, p: nat)
    ensures
        penned(v, a + b, p) == penned(penned(v, a, p), b, p),
    decreases b.len(),
{
    if b.len() == 0 {
        assert(a + b =~= a);
    } else {
        assert((a + b).drop_last() =~= a + b.drop_last());
        assert((a + b).last() == b.last());
        lemma_penned_add(v, a, b.drop_last(), p);
    }
}

pub proof fn lemma_penned_letters(v: Pen, s: Seq<char>, p: nat)
    requires
        forall|i: int| 0 <= i < s.len() ==> !is_command(#[trigger] s[i]) && s[i] != ' ',
    ensures
        penned(v, s, p) == (Pen { word: v.word + s, ..v }),
    decreases s.len(),
{
    if s.len() == 0 {
        assert(v.word + s =~= v.word);
    } else {
        let rest = s.drop_last();
        assert forall|i: int| 0 <= i < rest.len() implies !is_command(#[trigger] rest[i]) && rest[i]
            != ' ' by {
            assert(rest[i] == s[i]);
        }
        lemma_penned_letters(v, rest, p);
        assert(!is_command(s[s.len() - 1]) && s[s.len() - 1] != ' ');
        assert((v.word + rest).push(s.last()) =~= v.word + s);
    }
}

/// A number, read where an argument begins.
proof fn lemma_penned_number(v: Pen, x: int, p: nat)
    requires
        v.word.len() == 0,
    ensures
        penned(v, numeral(x, p), p) == (Pen { word: numeral(x, p), ..v }),
        numeral(x, p).len() > 0,
        number(numeral(x, p), p) == x,
{
    let s = numeral(x, p);
    lemma_numeral_characters(x, p);
    law_numbers_read_back(x, p);
    lemma_numeral_word(x, p);
    lemma_penned_letters(v, s, p);
    assert(v.word + s =~= s);
}

/// A number is made of digits, a point and a sign.
proof fn lemma_numeral_characters(x: int, p: nat)
    ensures
        forall|i: int|
            0 <= i < numeral(x, p).len() ==> !is_command(#[trigger] numeral(x, p)[i]) && numeral(
                x,
                p,
            )[i] != ' ',
{
    let m = if x < 0 {
        (-x) as nat
    } else {
        x as nat
    };
    let text = numeral(x, p);
    crate::export::lemma_magnitude_characters(m, p);
    assert forall|i: int| 0 <= i < text.len() implies !is_command(#[trigger] text[i]) && text[i]
        != ' ' by {
        if x < 0 {
            if i > 0 {
                assert(text[i] == crate::export::magnitude(m, p)[i - 1]);
            }
        } else {
            assert(text[i] == crate::export::magnitude(m, p)[i]);
        }
    }
}

pub proof fn lemma_penned_space(v: Pen, p: nat)
    ensures
        penned(v, " "@, p) == (Pen { args: v.args.push(v.word), word: seq![], ..v }),
{
    reveal_strlit(" ");
    let s = " "@;
    assert(s.drop_last().len() == 0);
    assert(penned(v, s.drop_last(), p) == v);
}

pub proof fn lemma_penned_command(v: Pen, s: Seq<char>, c: char, p: nat)
    requires
        s == seq![c],
        is_command(c),
    ensures
        penned(v, s, p) == (Pen { letter: Some(c), ..settled(v, p) }),
{
    assert(s.drop_last().len() == 0);
    assert(penned(v, s.drop_last(), p) == v);
    assert(s.last() == c);
}

/// Two coordinates, read where an argument begins.
proof fn lemma_penned_coords(v: Pen, q: Point, p: nat)
    requires
        v.word.len() == 0,
    ensures
        penned(v, coords(q, p), p) == (Pen {
            args: v.args.push(numeral(q.x as int, p)),
            word: numeral(q.y as int, p),
            ..v
        }),
        numeral(q.y as int, p).len() > 0,
        number(numeral(q.x as int, p), p) == q.x,
        number(numeral(q.y as int, p), p) == q.y,
{
    let a = numeral(q.x as int, p);
    let b = numeral(q.y as int, p);
    lemma_penned_number(v, q.x as int, p);
    let w1 = penned(v, a, p);
    lemma_penned_add(v, a, " "@, p);
    lemma_penned_space(w1, p);
    let w2 = penned(v, a + " "@, p);
    lemma_penned_add(v, a + " "@, b, p);
    lemma_penned_number(w2, q.y as int, p);
    assert(coords(q, p) =~= a + " "@ + b);
}

/// An argument and the space after it.
proof fn lemma_penned_arg(v: Pen, x: int, p: nat)
    requires
        v.word.len() == 0,
    ensures
        penned(v, numeral(x, p) + " "@, p) == (Pen { args: v.args.push(numeral(x, p)), ..v }),
        number(numeral(x, p), p) == x,
{
    lemma_penned_number(v, x, p);
    let w = penned(v, numeral(x, p), p);
    lemma_penned_add(v, numeral(x, p), " "@, p);
    lemma_penned_space(w, p);
    assert(v.word =~= seq![]);
}

proof fn lemma_flag(v: Pen, b: bool, p: nat)
    requires
        v.word.len() == 0,
    ensures
        penned(v, flag(b) + " "@, p) == (Pen { args: v.args.push(flag(b)), ..v }),
        (number(flag(b), 0) != 0) == b,
{
    reveal_strlit("0");
    reveal_strlit("1");
    let n: nat = if b {
        1
    } else {
        0
    };
    assert(crate::text::decimal(n) =~= flag(b));
    crate::export::reading::law_whole_numbers_read_back(n);
    assert(numeral(n as int, 0) == flag(b));
    lemma_numeral_characters(n as int, 0);
    lemma_penned_letters(v, flag(b), p);
    assert(v.word + flag(b) =~= flag(b));
    let w = penned(v, flag(b), p);
    lemma_penned_add(v, flag(b), " "@, p);
    lemma_penned_space(w, p);
    assert(v.word =~= seq![]);
}

// ---- Drawing ------------------------------------------------------------

/// What a command draws.
pub open spec fn leg_of(s: Seg<Point, i64>) -> Leg {
    match s {
        Seg::Line { to } => Leg::Line(to.x as int, to.y as int),
        Seg::Cubic { c1, c2, to } => Leg::Cubic(
            c1.x as int,
            c1.y as int,
            c2.x as int,
            c2.y as int,
            to.x as int,
            to.y as int,
        ),
        Seg::Arc { r, large, sweep, to } => Leg::Arc {
            rx: r as int,
            ry: r as int,
            turned: 0,
            large,
            sweep,
            x: to.x as int,
            y: to.y as int,
        },
    }
}

/// What a subpath draws.
pub open spec fn stroke_of(sp: SubPath<Point, i64>) -> Stroke {
    Stroke {
        start: (sp.start.x as int, sp.start.y as int),
        legs: Seq::new(sp.segs@.len(), |k: int| leg_of(sp.segs@[k])),
        closed: sp.closed,
    }
}

/// A reader whose last path is still open.
pub open spec fn is_drawing(v: Pen, p: nat) -> bool {
    let w = settled(v, p);
    w.sound && w.strokes.len() > 0 && !w.strokes.last().closed
}

proof fn lemma_penned_line(v: Pen, to: Point, p: nat)
    requires
        is_drawing(v, p),
    ensures
        settled(penned(v, "L"@ + coords(to, p), p), p) == (Pen {
            strokes: extended(settled(v, p).strokes, Leg::Line(to.x as int, to.y as int)),
            ..fresh()
        }),
{
    reveal_strlit("L");
    assert("L"@ =~= seq!['L']);
    lemma_penned_command(v, "L"@, 'L', p);
    let w = penned(v, "L"@, p);
    lemma_penned_add(v, "L"@, coords(to, p), p);
    lemma_penned_coords(w, to, p);
}

proof fn lemma_penned_cubic(v: Pen, c1: Point, c2: Point, to: Point, p: nat)
    requires
        is_drawing(v, p),
    ensures
        settled(
            penned(
                v,
                "C"@ + coords(c1, p) + " "@ + coords(c2, p) + " "@ + coords(to, p),
                p,
            ),
            p,
        ) == (Pen {
            strokes: extended(
                settled(v, p).strokes,
                Leg::Cubic(
                    c1.x as int,
                    c1.y as int,
                    c2.x as int,
                    c2.y as int,
                    to.x as int,
                    to.y as int,
                ),
            ),
            ..fresh()
        }),
{
    reveal_strlit("C");
    assert("C"@ =~= seq!['C']);
    let t0 = "C"@;
    let t1 = t0 + coords(c1, p);
    let t2 = t1 + " "@;
    let t3 = t2 + coords(c2, p);
    let t4 = t3 + " "@;
    let t5 = t4 + coords(to, p);
    lemma_penned_command(v, t0, 'C', p);
    let w0 = penned(v, t0, p);
    lemma_penned_add(v, t0, coords(c1, p), p);
    lemma_penned_coords(w0, c1, p);
    let w1 = penned(v, t1, p);
    lemma_penned_add(v, t1, " "@, p);
    lemma_penned_space(w1, p);
    let w2 = penned(v, t2, p);
    lemma_penned_add(v, t2, coords(c2, p), p);
    lemma_penned_coords(w2, c2, p);
    let w3 = penned(v, t3, p);
    lemma_penned_add(v, t3, " "@, p);
    lemma_penned_space(w3, p);
    let w4 = penned(v, t4, p);
    lemma_penned_add(v, t4, coords(to, p), p);
    lemma_penned_coords(w4, to, p);
}

proof fn lemma_penned_arc(v: Pen, r: int, large: bool, sweep: bool, to: Point, p: nat)
    requires
        is_drawing(v, p),
    ensures
        settled(
            penned(
                v,
                "A"@ + numeral(r, p) + " "@ + numeral(r, p) + " 0 "@ + flag(large) + " "@ + flag(
                    sweep,
                ) + " "@ + coords(to, p),
                p,
            ),
            p,
        ) == (Pen {
            strokes: extended(
                settled(v, p).strokes,
                Leg::Arc {
                    rx: r,
                    ry: r,
                    turned: 0,
                    large,
                    sweep,
                    x: to.x as int,
                    y: to.y as int,
                },
            ),
            ..fresh()
        }),
{
    reveal_strlit("A");
    assert("A"@ =~= seq!['A']);
    let end = coords(to, p);
    let args = arc_args(r, large, sweep, p);
    lemma_arc_text(r, large, sweep, end, p);
    lemma_penned_command(v, "A"@, 'A', p);
    let w0 = Pen { letter: Some('A'), ..settled(v, p) };
    let five = seq![numeral(r, p), numeral(r, p), numeral(0, p), flag(large), flag(sweep)];
    let w1 = Pen { args: five, ..w0 };
    let x = numeral(to.x as int, p);
    let y = numeral(to.y as int, p);
    let w2 = Pen { args: five.push(x), word: y, ..w0 };
    lemma_penned_arc_args(w0, r, large, sweep, p);
    assert(w0.args + five =~= five);
    lemma_penned_coords(w1, to, p);
    assert(wrote(v, "A"@, w0, p) && wrote(w0, args, w1, p) && wrote(w1, end, w2, p)) by {
        reveal(wrote);
    }
    lemma_wrote_on(v, "A"@, w0, args, w1, p);
    lemma_wrote_on(v, "A"@ + args, w1, end, w2, p);
    assert(penned(v, "A"@ + args + end, p) == w2) by {
        reveal(wrote);
    }
    lemma_arc_settled(w2, settled(v, p).strokes, r, large, sweep, to, p);
}

/// An arc whose arguments were read.
proof fn lemma_arc_settled(
    w: Pen,
    strokes: Seq<Stroke>,
    r: int,
    large: bool,
    sweep: bool,
    to: Point,
    p: nat,
)
    requires
        w.letter == Some('A'),
        w.sound,
        w.strokes == strokes,
        strokes.len() > 0,
        !strokes.last().closed,
        w.args.len() == 6,
        w.word.len() > 0,
        number(w.args[0], p) == r,
        number(w.args[1], p) == r,
        number(w.args[2], p) == 0,
        (number(w.args[3], 0) != 0) == large,
        (number(w.args[4], 0) != 0) == sweep,
        number(w.args[5], p) == to.x,
        number(w.word, p) == to.y,
    ensures
        settled(w, p) == (Pen {
            strokes: extended(
                strokes,
                Leg::Arc {
                    rx: r,
                    ry: r,
                    turned: 0,
                    large,
                    sweep,
                    x: to.x as int,
                    y: to.y as int,
                },
            ),
            ..fresh()
        }),
{
    let args = w.args.push(w.word);
    assert(args.len() == 7);
    assert(args[0] == w.args[0] && args[1] == w.args[1] && args[2] == w.args[2] && args[3]
        == w.args[3] && args[4] == w.args[4] && args[5] == w.args[5] && args[6] == w.word);
}

/// The arguments of an arc before its end, each with a space after it.
pub open spec fn arc_args(r: int, large: bool, sweep: bool, p: nat) -> Seq<char> {
    (numeral(r, p) + " "@) + (numeral(r, p) + " "@) + (numeral(0, p) + " "@) + (flag(large) + " "@)
        + (flag(sweep) + " "@)
}

proof fn lemma_arc_text(r: int, large: bool, sweep: bool, end: Seq<char>, p: nat)
    ensures
        "A"@ + numeral(r, p) + " "@ + numeral(r, p) + " 0 "@ + flag(large) + " "@ + flag(sweep)
            + " "@ + end == "A"@ + arc_args(r, large, sweep, p) + end,
{
    reveal_strlit(" ");
    reveal_strlit(" 0 ");
    crate::export::reading::lemma_zero(p);
    assert("A"@ + numeral(r, p) + " "@ + numeral(r, p) + " 0 "@ + flag(large) + " "@ + flag(sweep)
        + " "@ + end =~= "A"@ + arc_args(r, large, sweep, p) + end);
}

proof fn lemma_penned_arc_args(v: Pen, r: int, large: bool, sweep: bool, p: nat)
    requires
        v.word.len() == 0,
    ensures
        penned(v, arc_args(r, large, sweep, p), p) == (Pen {
            args: v.args + seq![
                numeral(r, p),
                numeral(r, p),
                numeral(0, p),
                flag(large),
                flag(sweep),
            ],
            ..v
        }),
        number(numeral(r, p), p) == r,
        number(numeral(0, p), p) == 0,
        (number(flag(large), 0) != 0) == large,
        (number(flag(sweep), 0) != 0) == sweep,
{
    let one = numeral(r, p) + " "@;
    let zero = numeral(0, p) + " "@;
    let big = flag(large) + " "@;
    let way = flag(sweep) + " "@;
    let w1 = Pen { args: v.args.push(numeral(r, p)), ..v };
    let w2 = Pen { args: w1.args.push(numeral(r, p)), ..v };
    let w3 = Pen { args: w2.args.push(numeral(0, p)), ..v };
    let w4 = Pen { args: w3.args.push(flag(large)), ..v };
    let w5 = Pen { args: w4.args.push(flag(sweep)), ..v };
    assert(wrote(v, one, w1, p) && wrote(w1, one, w2, p) && wrote(w2, zero, w3, p)) by {
        reveal(wrote);
        lemma_penned_arg(v, r, p);
        lemma_penned_arg(w1, r, p);
        lemma_penned_arg(w2, 0, p);
    }
    assert(wrote(w3, big, w4, p) && wrote(w4, way, w5, p)) by {
        reveal(wrote);
        lemma_flag(w3, large, p);
        lemma_flag(w4, sweep, p);
    }
    lemma_wrote_on(v, one, w1, one, w2, p);
    lemma_wrote_on(v, one + one, w2, zero, w3, p);
    lemma_wrote_on(v, one + one + zero, w3, big, w4, p);
    lemma_wrote_on(v, one + one + zero + big, w4, way, w5, p);
    assert(penned(v, arc_args(r, large, sweep, p), p) == w5) by {
        reveal(wrote);
    }
    assert(w5.args =~= v.args + seq![
        numeral(r, p),
        numeral(r, p),
        numeral(0, p),
        flag(large),
        flag(sweep),
    ]);
    law_numbers_read_back(r, p);
    law_numbers_read_back(0, p);
    lemma_flag(w3, large, p);
    lemma_flag(w3, sweep, p);
}

/// Reading data takes a reader from one state to another.
#[verifier::opaque]
pub open spec fn wrote(v: Pen, s: Seq<char>, w: Pen, p: nat) -> bool {
    penned(v, s, p) == w
}

proof fn lemma_wrote_on(v: Pen, a: Seq<char>, w: Pen, b: Seq<char>, x: Pen, p: nat)
    requires
        wrote(v, a, w, p),
        wrote(w, b, x, p),
    ensures
        wrote(v, a + b, x, p),
{
    reveal(wrote);
    lemma_penned_add(v, a, b, p);
}

proof fn lemma_penned_seg(v: Pen, s: Seg<Point, i64>, p: nat)
    requires
        is_drawing(v, p),
    ensures
        settled(penned(v, seg_text(s, p), p), p) == (Pen {
            strokes: extended(settled(v, p).strokes, leg_of(s)),
            ..fresh()
        }),
{
    match s {
        Seg::Line { to } => lemma_penned_line(v, to, p),
        Seg::Cubic { c1, c2, to } => lemma_penned_cubic(v, c1, c2, to, p),
        Seg::Arc { r, large, sweep, to } => lemma_penned_arc(v, r as int, large, sweep, to, p),
    }
}

proof fn lemma_penned_segs(v: Pen, segs: Seq<Seg<Point, i64>>, p: nat)
    requires
        is_drawing(v, p),
        settled(v, p).strokes.last().legs.len() == 0,
    ensures
        ({
            let w = settled(penned(v, segs_text(segs, p), p), p);
            let before = settled(v, p).strokes;
            &&& w.sound
            &&& w.strokes == before.drop_last().push(
                Stroke {
                    legs: Seq::new(segs.len(), |k: int| leg_of(segs[k])),
                    ..before.last()
                },
            )
        }),
    decreases segs.len(),
{
    let before = settled(v, p).strokes;
    let legs = Seq::new(segs.len(), |k: int| leg_of(segs[k]));
    if segs.len() == 0 {
        assert(before.last().legs =~= legs);
        assert(before =~= before.drop_last().push(before.last()));
    } else {
        let rest = segs.drop_last();
        let fewer = Seq::new(rest.len(), |k: int| leg_of(rest[k]));
        lemma_penned_segs(v, rest, p);
        let w = penned(v, segs_text(rest, p), p);
        lemma_penned_add(v, segs_text(rest, p), seg_text(segs.last(), p), p);
        lemma_penned_seg(w, segs.last(), p);
        assert(fewer.push(leg_of(segs.last())) =~= legs);
        let mid = settled(w, p).strokes;
        assert(mid.drop_last() =~= before.drop_last());
    }
}

proof fn lemma_penned_path(v: Pen, sp: SubPath<Point, i64>, p: nat)
    requires
        settled(v, p).sound,
    ensures
        ({
            let w = settled(penned(v, path_text(sp, p), p), p);
            &&& w.sound
            &&& w.strokes == settled(v, p).strokes.push(stroke_of(sp))
        }),
{
    reveal_strlit("M");
    reveal_strlit("Z");
    reveal_strlit("");
    assert("M"@ =~= seq!['M'] && "Z"@ =~= seq!['Z']);
    let before = settled(v, p).strokes;
    let head = "M"@ + coords(sp.start, p);
    lemma_penned_command(v, "M"@, 'M', p);
    let w0 = penned(v, "M"@, p);
    lemma_penned_add(v, "M"@, coords(sp.start, p), p);
    lemma_penned_coords(w0, sp.start, p);
    let w1 = penned(v, head, p);
    let first = Stroke {
        start: (sp.start.x as int, sp.start.y as int),
        legs: seq![],
        closed: false,
    };
    assert(settled(w1, p).strokes == before.push(first));
    assert(before.push(first).drop_last() =~= before);
    let body = segs_text(sp.segs@, p);
    lemma_penned_add(v, head, body, p);
    lemma_penned_segs(w1, sp.segs@, p);
    let w2 = penned(v, head + body, p);
    if sp.closed {
        lemma_penned_add(v, head + body, "Z"@, p);
        lemma_penned_command(w2, "Z"@, 'Z', p);
        let after = settled(w2, p).strokes;
        assert(after.drop_last() =~= before);
        assert(shut(after) =~= before.push(stroke_of(sp)));
    } else {
        assert(head + body + ""@ =~= head + body);
        assert(settled(w2, p).strokes =~= before.push(stroke_of(sp)));
    }
}

/// Reading path data gives back every subpath in order: where it begins, each of its
/// commands with its own points and flags, and whether it is closed. Nothing is left over.
pub proof fn law_path_data_reads_back(list: Seq<SubPath<Point, i64>>, p: nat)
    ensures
        ({
            let w = settled(penned(fresh(), paths_text(list, p), p), p);
            &&& w.sound
            &&& w.strokes == Seq::new(list.len(), |k: int| stroke_of(list[k]))
        }),
    decreases list.len(),
{
    if list.len() > 0 {
        let rest = list.drop_last();
        law_path_data_reads_back(rest, p);
        let w = penned(fresh(), paths_text(rest, p), p);
        lemma_penned_add(fresh(), paths_text(rest, p), path_text(list.last(), p), p);
        lemma_penned_path(w, list.last(), p);
        assert(Seq::new(rest.len(), |k: int| stroke_of(rest[k])).push(stroke_of(list.last()))
            =~= Seq::new(list.len(), |k: int| stroke_of(list[k])));
    } else {
        assert(fresh().strokes =~= Seq::new(list.len(), |k: int| stroke_of(list[k])));
    }
}

// ---- Attributes ---------------------------------------------------------

/// A text read up to a point: what stands before, inside and between the quotes, in
/// order, and what follows the last quote.
pub ghost struct Markup {
    pub parts: Seq<Seq<char>>,
    pub rest: Seq<char>,
}

/// Divide a text at its quotes.
pub open spec fn divided(v: Markup, s: Seq<char>) -> Markup
    decreases s.len(),
{
    if s.len() == 0 {
        v
    } else {
        let w = divided(v, s.drop_last());
        if s.last() == '"' {
            Markup { parts: w.parts.push(w.rest), rest: seq![] }
        } else {
            Markup { rest: w.rest.push(s.last()), ..w }
        }
    }
}

pub open spec fn nothing() -> Markup {
    Markup { parts: seq![], rest: seq![] }
}

proof fn lemma_divided_add(v: Markup, a: Seq<char>, b: Seq<char>)
    ensures
        divided(v, a + b) == divided(divided(v, a), b),
    decreases b.len(),
{
    if b.len() == 0 {
        assert(a + b =~= a);
    } else {
        assert((a + b).drop_last() =~= a + b.drop_last());
        assert((a + b).last() == b.last());
        lemma_divided_add(v, a, b.drop_last());
    }
}

/// No quote stands in the text.
pub open spec fn is_plain(s: Seq<char>) -> bool {
    forall|i: int| 0 <= i < s.len() ==> #[trigger] s[i] != '"'
}

/// The text is `name` and a quote after it.
pub open spec fn opens(s: Seq<char>, name: Seq<char>) -> bool {
    s == name.push('"') && is_plain(name)
}

/// Reading takes a reader from one state to another.
#[verifier::opaque]
pub open spec fn yields(v: Markup, s: Seq<char>, w: Markup) -> bool {
    divided(v, s) == w
}

pub proof fn lemma_yields_on(v: Markup, a: Seq<char>, w: Markup, b: Seq<char>, x: Markup)
    requires
        yields(v, a, w),
        yields(w, b, x),
    ensures
        yields(v, a + b, x),
{
    reveal(yields);
    lemma_divided_add(v, a, b);
}

proof fn lemma_divided_plain(v: Markup, s: Seq<char>)
    requires
        is_plain(s),
    ensures
        divided(v, s) == (Markup { rest: v.rest + s, ..v }),
    decreases s.len(),
{
    if s.len() == 0 {
        assert(v.rest + s =~= v.rest);
    } else {
        let rest = s.drop_last();
        assert(is_plain(rest));
        lemma_divided_plain(v, rest);
        assert(s[s.len() - 1] != '"');
        assert((v.rest + rest).push(s.last()) =~= v.rest + s);
    }
}

/// A text that ends in a quote, after which a text without quotes begins.
pub proof fn lemma_opened(v: Markup, s: Seq<char>, name: Seq<char>)
    requires
        opens(s, name),
    ensures
        yields(v, s, (Markup { parts: v.parts.push(v.rest + name), rest: seq![] })),
{
    reveal(yields);
    lemma_divided_plain(v, name);
    assert(s.drop_last() =~= name);
}

/// A text without quotes, read after a quote.
pub proof fn lemma_value(v: Markup, s: Seq<char>)
    requires
        is_plain(s),
        v.rest.len() == 0,
    ensures
        yields(v, s, (Markup { rest: s, ..v })),
{
    reveal(yields);
    lemma_divided_plain(v, s);
    assert(v.rest + s =~= s);
}

/// A value and the texts around it: the one before it ends in the quote that opens it, the
/// one after it begins with the quote that closes it.
pub proof fn lemma_closed(v: Markup, s: Seq<char>, after: Seq<char>)
    requires
        s == seq!['"'] + after,
        is_plain(after),
    ensures
        yields(v, s, (Markup { parts: v.parts.push(v.rest), rest: after })),
{
    reveal(yields);
    let q = seq!['"'];
    assert(q.drop_last().len() == 0 && q.last() == '"');
    assert(divided(v, q.drop_last()) == v);
    lemma_divided_add(v, q, after);
    let w = divided(v, q);
    lemma_divided_plain(w, after);
    assert(w.rest + after =~= after);
}

/// A quote, a text without quotes and a quote.
pub proof fn lemma_reopened(v: Markup, s: Seq<char>, between: Seq<char>)
    requires
        s == (seq!['"'] + between).push('"'),
        is_plain(between),
    ensures
        yields(
            v,
            s,
            (Markup { parts: v.parts.push(v.rest).push(between), rest: seq![] }),
        ),
{
    let first = seq!['"'] + between;
    lemma_closed(v, first, between);
    let w = Markup { parts: v.parts.push(v.rest), rest: between };
    reveal(yields);
    assert(s.drop_last() =~= first);
}

proof fn lemma_numeral_plain(x: int, p: nat)
    ensures
        is_plain(numeral(x, p)),
{
    let m = if x < 0 {
        (-x) as nat
    } else {
        x as nat
    };
    let text = numeral(x, p);
    crate::export::lemma_magnitude_characters(m, p);
    assert forall|i: int| 0 <= i < text.len() implies #[trigger] text[i] != '"' by {
        if x < 0 {
            if i > 0 {
                assert(text[i] == crate::export::magnitude(m, p)[i - 1]);
            }
        } else {
            assert(text[i] == crate::export::magnitude(m, p)[i]);
        }
    }
}

proof fn lemma_data_plain(list: Seq<SubPath<Point, i64>>, p: nat)
    ensures
        is_plain(paths_text(list, p)),
    decreases list.len(),
{
    if list.len() > 0 {
        lemma_data_plain(list.drop_last(), p);
        let sp = list.last();
        reveal_strlit("M");
        reveal_strlit("Z");
        reveal_strlit("");
        lemma_coords_plain(sp.start, p);
        lemma_segs_plain(sp.segs@, p);
        lemma_plain_add("M"@, coords(sp.start, p));
        lemma_plain_add("M"@ + coords(sp.start, p), segs_text(sp.segs@, p));
        lemma_plain_add(
            "M"@ + coords(sp.start, p) + segs_text(sp.segs@, p),
            if sp.closed {
                "Z"@
            } else {
                ""@
            },
        );
        lemma_plain_add(paths_text(list.drop_last(), p), path_text(sp, p));
    }
}

pub proof fn lemma_plain_add(a: Seq<char>, b: Seq<char>)
    requires
        is_plain(a),
        is_plain(b),
    ensures
        is_plain(a + b),
{
    assert forall|i: int| 0 <= i < (a + b).len() implies #[trigger] (a + b)[i] != '"' by {
        if i < a.len() {
            assert(a[i] != '"');
        } else {
            assert(b[i - a.len()] != '"');
        }
    }
}

proof fn lemma_coords_plain(q: Point, p: nat)
    ensures
        is_plain(coords(q, p)),
{
    reveal_strlit(" ");
    lemma_numeral_plain(q.x as int, p);
    lemma_numeral_plain(q.y as int, p);
    lemma_plain_add(numeral(q.x as int, p), " "@);
    lemma_plain_add(numeral(q.x as int, p) + " "@, numeral(q.y as int, p));
}

proof fn lemma_segs_plain(segs: Seq<Seg<Point, i64>>, p: nat)
    ensures
        is_plain(segs_text(segs, p)),
    decreases segs.len(),
{
    if segs.len() > 0 {
        lemma_segs_plain(segs.drop_last(), p);
        reveal_strlit("L");
        reveal_strlit("C");
        reveal_strlit("A");
        reveal_strlit(" ");
        reveal_strlit(" 0 ");
        reveal_strlit("0");
        reveal_strlit("1");
        match segs.last() {
            Seg::Line { to } => {
                lemma_coords_plain(to, p);
                lemma_plain_add("L"@, coords(to, p));
            },
            Seg::Cubic { c1, c2, to } => {
                lemma_coords_plain(c1, p);
                lemma_coords_plain(c2, p);
                lemma_coords_plain(to, p);
                lemma_plain_add("C"@, coords(c1, p));
                lemma_plain_add("C"@ + coords(c1, p), " "@);
                let t = "C"@ + coords(c1, p) + " "@;
                lemma_plain_add(t, coords(c2, p));
                lemma_plain_add(t + coords(c2, p), " "@);
                lemma_plain_add(t + coords(c2, p) + " "@, coords(to, p));
            },
            Seg::Arc { r, large, sweep, to } => {
                lemma_numeral_plain(r as int, p);
                lemma_coords_plain(to, p);
                let n = numeral(r as int, p);
                lemma_plain_add("A"@, n);
                lemma_plain_add("A"@ + n, " "@);
                lemma_plain_add("A"@ + n + " "@, n);
                let t = "A"@ + n + " "@ + n;
                lemma_plain_add(t, " 0 "@);
                lemma_plain_add(t + " 0 "@, flag(large));
                let u = t + " 0 "@ + flag(large);
                lemma_plain_add(u, " "@);
                lemma_plain_add(u + " "@, flag(sweep));
                lemma_plain_add(u + " "@ + flag(sweep), " "@);
                lemma_plain_add(u + " "@ + flag(sweep) + " "@, coords(to, p));
            },
        }
        lemma_plain_add(segs_text(segs.drop_last(), p), seg_text(segs.last(), p));
    }
}

/// An opacity is the nearest step of 1/10000.
pub proof fn law_opacity_is_the_nearest_step(a: u8)
    ensures
        -255 <= 2 * (255 * opacity(a) - 10000 * a) <= 255,
        opacity(255) == 10000,
        opacity(0) == 0,
{
}

proof fn lemma_texts()
    ensures
        opens("fill=\""@, "fill="@),
        "\""@ == seq!['"'],
        " fill-opacity=\""@ == " fill-opacity="@.push('"'),
        is_plain(" fill-opacity="@),
        is_plain("<path "@),
        " d=\""@ == " d="@.push('"'),
        is_plain(" d="@),
        "\"/>\n"@ == seq!['"'] + "/>\n"@,
        is_plain("/>\n"@),
        opens("<rect width=\""@, "<rect width="@),
        "\" height=\""@ == (seq!['"'] + " height="@).push('"'),
        is_plain(" height="@),
        "\" "@ == seq!['"'] + " "@,
        is_plain(" "@),
{
    reveal_strlit("fill=\"");
    reveal_strlit("fill=");
    reveal_strlit("\"");
    reveal_strlit(" fill-opacity=\"");
    reveal_strlit(" fill-opacity=");
    reveal_strlit("<path ");
    reveal_strlit(" d=\"");
    reveal_strlit(" d=");
    reveal_strlit("\"/>\n");
    reveal_strlit("/>\n");
    reveal_strlit("<rect width=\"");
    reveal_strlit("<rect width=");
    reveal_strlit("\" height=\"");
    reveal_strlit(" height=");
    reveal_strlit("\" ");
    reveal_strlit(" ");
    assert("fill=\""@ =~= "fill="@.push('"'));
    assert("\""@ =~= seq!['"']);
    assert(" fill-opacity=\""@ =~= " fill-opacity="@.push('"'));
    assert(" d=\""@ =~= " d="@.push('"'));
    assert("\"/>\n"@ =~= seq!['"'] + "/>\n"@);
    assert("<rect width=\""@ =~= "<rect width="@.push('"'));
    assert("\" height=\""@ =~= (seq!['"'] + " height="@).push('"'));
    assert("\" "@ =~= seq!['"'] + " "@);
}

/// The colour of an element and, unless it is opaque, its opacity.
pub open spec fn paint_parts(before: Seq<char>, c: Rgba8) -> Seq<Seq<char>> {
    if c.a == 255 {
        seq![before + "fill="@, hex_form(c)]
    } else {
        seq![before + "fill="@, hex_form(c), " fill-opacity="@, numeral(opacity(c.a), 4)]
    }
}

proof fn lemma_paint(v: Markup, c: Rgba8)
    ensures
        yields(
            v,
            paint(c),
            (Markup { parts: v.parts + paint_parts(v.rest, c), rest: seq![] }),
        ),
{
    lemma_texts();
    lemma_hex_is_plain(c);
    lemma_numeral_plain(opacity(c.a), 4);
    reveal_strlit("");
    let q = "\""@;
    assert(q =~= seq!['"'] + Seq::<char>::empty());
    let v1 = Markup { parts: v.parts.push(v.rest + "fill="@), rest: seq![] };
    let v2 = Markup { rest: hex_form(c), ..v1 };
    let v3 = Markup { parts: v2.parts.push(hex_form(c)), rest: seq![] };
    lemma_opened(v, "fill=\""@, "fill="@);
    lemma_value(v1, hex_form(c));
    lemma_yields_on(v, "fill=\""@, v1, hex_form(c), v2);
    lemma_closed(v2, q, Seq::empty());
    let t3 = "fill=\""@ + hex_form(c) + q;
    lemma_yields_on(v, "fill=\""@ + hex_form(c), v2, q, v3);
    if c.a == 255 {
        assert(t3 + ""@ =~= t3);
        assert(v3.parts =~= v.parts + paint_parts(v.rest, c));
    } else {
        let n = numeral(opacity(c.a), 4);
        let v4 = Markup { parts: v3.parts.push(v3.rest + " fill-opacity="@), rest: seq![] };
        let v5 = Markup { rest: n, ..v4 };
        let v6 = Markup { parts: v5.parts.push(n), rest: seq![] };
        lemma_opened(v3, " fill-opacity=\""@, " fill-opacity="@);
        lemma_value(v4, n);
        lemma_closed(v5, q, Seq::empty());
        lemma_yields_on(v, t3, v3, " fill-opacity=\""@, v4);
        lemma_yields_on(v, t3 + " fill-opacity=\""@, v4, n, v5);
        lemma_yields_on(v, t3 + " fill-opacity=\""@ + n, v5, q, v6);
        assert(t3 + (" fill-opacity=\""@ + n + q) =~= t3 + " fill-opacity=\""@ + n + q);
        assert(v3.rest + " fill-opacity="@ =~= " fill-opacity="@);
        assert(v6.parts =~= v.parts + paint_parts(v.rest, c));
    }
}

/// A hexadecimal colour has no quotes in it.
pub proof fn lemma_hex_is_plain(c: Rgba8)
    ensures
        is_plain(hex_form(c)),
{
    assert forall|i: int| 0 <= i < hex_form(c).len() implies #[trigger] hex_form(c)[i] != '"' by {}
}

/// A shape with subpaths is one path element: its colour, its opacity unless it is opaque,
/// and its path data, each under its own name.
pub proof fn law_shapes_are_path_elements(s: Shape<Point, i64>, p: nat)
    requires
        s.subpaths@.len() > 0,
    ensures
        divided(nothing(), shape_text(s, p)) == (Markup {
            parts: paint_parts("<path "@, s.color) + seq![" d="@, paths_text(s.subpaths@, p)],
            rest: "/>\n"@,
        }),
{
    lemma_texts();
    let data = paths_text(s.subpaths@, p);
    lemma_data_plain(s.subpaths@, p);
    let v0 = nothing();
    let v1 = Markup { rest: "<path "@, ..v0 };
    let v2 = Markup { parts: v1.parts + paint_parts(v1.rest, s.color), rest: seq![] };
    let v3 = Markup { parts: v2.parts.push(v2.rest + " d="@), rest: seq![] };
    let v4 = Markup { rest: data, ..v3 };
    let v5 = Markup { parts: v4.parts.push(data), rest: "/>\n"@ };
    lemma_value(v0, "<path "@);
    lemma_paint(v1, s.color);
    lemma_yields_on(v0, "<path "@, v1, paint(s.color), v2);
    lemma_opened(v2, " d=\""@, " d="@);
    let t2 = "<path "@ + paint(s.color);
    lemma_yields_on(v0, t2, v2, " d=\""@, v3);
    lemma_value(v3, data);
    lemma_yields_on(v0, t2 + " d=\""@, v3, data, v4);
    lemma_closed(v4, "\"/>\n"@, "/>\n"@);
    lemma_yields_on(v0, t2 + " d=\""@ + data, v4, "\"/>\n"@, v5);
    assert(v2.rest + " d="@ =~= " d="@);
    assert(v5.parts =~= paint_parts("<path "@, s.color) + seq![" d="@, data]);
    reveal(yields);
}

/// The backdrop is one rectangle from edge to edge in the background's colour.
pub proof fn law_backdrop_is_a_rectangle(c: Rgba8, w: int, h: int, p: nat)
    ensures
        divided(nothing(), backdrop(Some(c), w, h, p)) == (Markup {
            parts: seq!["<rect width="@, numeral(w, p), " height="@, numeral(h, p)] + paint_parts(
                " "@,
                c,
            ),
            rest: "/>\n"@,
        }),
{
    lemma_texts();
    lemma_numeral_plain(w, p);
    lemma_numeral_plain(h, p);
    let wide = numeral(w, p);
    let tall = numeral(h, p);
    let v0 = nothing();
    let v1 = Markup { parts: v0.parts.push(v0.rest + "<rect width="@), rest: seq![] };
    let v2 = Markup { rest: wide, ..v1 };
    let v3 = Markup { parts: v2.parts.push(wide).push(" height="@), rest: seq![] };
    let v4 = Markup { rest: tall, ..v3 };
    let v5 = Markup { parts: v4.parts.push(tall), rest: " "@ };
    let v6 = Markup { parts: v5.parts + paint_parts(v5.rest, c), rest: seq![] };
    let v7 = Markup { rest: "/>\n"@, ..v6 };
    lemma_opened(v0, "<rect width=\""@, "<rect width="@);
    lemma_value(v1, wide);
    lemma_yields_on(v0, "<rect width=\""@, v1, wide, v2);
    let t2 = "<rect width=\""@ + wide;
    lemma_reopened(v2, "\" height=\""@, " height="@);
    lemma_yields_on(v0, t2, v2, "\" height=\""@, v3);
    lemma_value(v3, tall);
    lemma_yields_on(v0, t2 + "\" height=\""@, v3, tall, v4);
    lemma_closed(v4, "\" "@, " "@);
    let t4 = t2 + "\" height=\""@ + tall;
    lemma_yields_on(v0, t4, v4, "\" "@, v5);
    lemma_paint(v5, c);
    lemma_yields_on(v0, t4 + "\" "@, v5, paint(c), v6);
    lemma_value(v6, "/>\n"@);
    lemma_yields_on(v0, t4 + "\" "@ + paint(c), v6, "/>\n"@, v7);
    assert(v0.rest + "<rect width="@ =~= "<rect width="@);
    assert(v7.parts =~= seq!["<rect width="@, wide, " height="@, tall] + paint_parts(" "@, c));
    reveal(yields);
}

/// The opening tag gives the size of the drawing and a view box of that size at the
/// origin.
pub proof fn law_opening_gives_the_size(w: int, h: int, p: nat)
    ensures
        divided(nothing(), opening(w, h, p)) == (Markup {
            parts: seq![
                "<?xml version="@,
                "1.0"@,
                " encoding="@,
                "UTF-8"@,
                "?>\n<svg xmlns="@,
                "http://www.w3.org/2000/svg"@,
                " width="@,
                numeral(w, p),
                " height="@,
                numeral(h, p),
                " viewBox="@,
                "0 0 "@ + numeral(w, p) + " "@ + numeral(h, p),
            ],
            rest: ">\n"@,
        }),
{
    lemma_texts();
    lemma_opening_texts();
    lemma_numeral_plain(w, p);
    lemma_numeral_plain(h, p);
    let wide = numeral(w, p);
    let tall = numeral(h, p);
    let v0 = nothing();
    let v6 = declared();
    lemma_declaration();
    let v7 = Markup { rest: wide, ..v6 };
    lemma_value(v6, wide);
    let t6 = declaration();
    lemma_yields_on(v0, t6, v6, wide, v7);
    let v8 = Markup { parts: v7.parts.push(wide).push(" height="@), rest: seq![] };
    lemma_reopened(v7, "\" height=\""@, " height="@);
    lemma_yields_on(v0, t6 + wide, v7, "\" height=\""@, v8);
    let t8 = t6 + wide + "\" height=\""@;
    let v9 = Markup { rest: tall, ..v8 };
    lemma_value(v8, tall);
    lemma_yields_on(v0, t8, v8, tall, v9);
    let v10 = Markup { parts: v9.parts.push(tall).push(" viewBox="@), rest: seq![] };
    let view = "0 0 "@ + wide + " "@ + tall;
    lemma_reopened(v9, "\" viewBox=\""@, " viewBox="@);
    lemma_yields_on(v0, t8 + tall, v9, "\" viewBox=\""@, v10);
    lemma_plain_add("0 0 "@, wide);
    lemma_plain_add("0 0 "@ + wide, " "@);
    lemma_plain_add("0 0 "@ + wide + " "@, tall);
    let v11 = Markup { rest: view, ..v10 };
    lemma_value(v10, view);
    let t10 = t8 + tall + "\" viewBox=\""@;
    lemma_yields_on(v0, t10, v10, view, v11);
    let v12 = Markup { parts: v11.parts.push(view), rest: ">\n"@ };
    lemma_closed(v11, "\">\n"@, ">\n"@);
    lemma_yields_on(v0, t10 + view, v11, "\">\n"@, v12);
    assert(opening(w, h, p) =~= t10 + view + "\">\n"@);
    reveal(yields);
    assert(v12.parts =~= seq![
        "<?xml version="@,
        "1.0"@,
        " encoding="@,
        "UTF-8"@,
        "?>\n<svg xmlns="@,
        "http://www.w3.org/2000/svg"@,
        " width="@,
        wide,
        " height="@,
        tall,
        " viewBox="@,
        view,
    ]);
}

pub open spec fn declared() -> Markup {
    Markup {
        parts: seq![
            "<?xml version="@,
            "1.0"@,
            " encoding="@,
            "UTF-8"@,
            "?>\n<svg xmlns="@,
            "http://www.w3.org/2000/svg"@,
            " width="@,
        ],
        rest: seq![],
    }
}

proof fn lemma_opening_texts()
    ensures
        opens("<?xml version=\""@, "<?xml version="@),
        is_plain("1.0"@),
        "\" encoding=\""@ == (seq!['"'] + " encoding="@).push('"'),
        is_plain(" encoding="@),
        is_plain("UTF-8"@),
        "\"?>\n<svg xmlns=\""@ == (seq!['"'] + "?>\n<svg xmlns="@).push('"'),
        is_plain("?>\n<svg xmlns="@),
        is_plain("http://www.w3.org/2000/svg"@),
        "\" width=\""@ == (seq!['"'] + " width="@).push('"'),
        is_plain(" width="@),
        "\" viewBox=\"0 0 "@ == "\" viewBox=\""@ + "0 0 "@,
        "\" viewBox=\""@ == (seq!['"'] + " viewBox="@).push('"'),
        is_plain(" viewBox="@),
        is_plain("0 0 "@),
        "\">\n"@ == seq!['"'] + ">\n"@,
        is_plain(">\n"@),
{
    reveal_strlit("<?xml version=\"");
    reveal_strlit("<?xml version=");
    assert("<?xml version=\""@ =~= "<?xml version="@.push('"'));
    reveal_strlit("1.0");
    reveal_strlit("\" encoding=\"");
    reveal_strlit(" encoding=");
    assert("\" encoding=\""@ =~= (seq!['"'] + " encoding="@).push('"'));
    reveal_strlit("UTF-8");
    reveal_strlit("\"?>\n<svg xmlns=\"");
    reveal_strlit("?>\n<svg xmlns=");
    assert("\"?>\n<svg xmlns=\""@ =~= (seq!['"'] + "?>\n<svg xmlns="@).push('"'));
    reveal_strlit("http://www.w3.org/2000/svg");
    reveal_strlit("\" width=\"");
    reveal_strlit(" width=");
    assert("\" width=\""@ =~= (seq!['"'] + " width="@).push('"'));
    reveal_strlit("\" viewBox=\"0 0 ");
    reveal_strlit("\" viewBox=\"");
    reveal_strlit(" viewBox=");
    reveal_strlit("0 0 ");
    assert("\" viewBox=\"0 0 "@ =~= "\" viewBox=\""@ + "0 0 "@);
    assert("\" viewBox=\""@ =~= (seq!['"'] + " viewBox="@).push('"'));
    reveal_strlit("\">\n");
    reveal_strlit(">\n");
    assert("\">\n"@ =~= seq!['"'] + ">\n"@);
}

proof fn lemma_declaration()
    ensures
        yields(nothing(), declaration(), declared()),
{
    lemma_opening_texts();
    let v0 = nothing();
    let v1 = Markup { parts: v0.parts.push(v0.rest + "<?xml version="@), rest: seq![] };
    let v2 = Markup { rest: "1.0"@, ..v1 };
    let v3 = Markup { parts: v2.parts.push("1.0"@).push(" encoding="@), rest: seq![] };
    let v4 = Markup { rest: "UTF-8"@, ..v3 };
    let v5 = Markup { parts: v4.parts.push("UTF-8"@).push("?>\n<svg xmlns="@), rest: seq![] };
    let v6 = Markup { rest: "http://www.w3.org/2000/svg"@, ..v5 };
    let v7 = Markup { parts: v6.parts.push(v6.rest).push(" width="@), rest: seq![] };
    let t1 = "<?xml version=\""@;
    let t2 = t1 + "1.0"@;
    let t3 = t2 + "\" encoding=\""@;
    let t4 = t3 + "UTF-8"@;
    let t5 = t4 + "\"?>\n<svg xmlns=\""@;
    let t6 = t5 + "http://www.w3.org/2000/svg"@;
    lemma_opened(v0, t1, "<?xml version="@);
    lemma_value(v1, "1.0"@);
    lemma_yields_on(v0, t1, v1, "1.0"@, v2);
    lemma_reopened(v2, "\" encoding=\""@, " encoding="@);
    lemma_yields_on(v0, t2, v2, "\" encoding=\""@, v3);
    lemma_value(v3, "UTF-8"@);
    lemma_yields_on(v0, t3, v3, "UTF-8"@, v4);
    lemma_reopened(v4, "\"?>\n<svg xmlns=\""@, "?>\n<svg xmlns="@);
    lemma_yields_on(v0, t4, v4, "\"?>\n<svg xmlns=\""@, v5);
    lemma_value(v5, "http://www.w3.org/2000/svg"@);
    lemma_yields_on(v0, t5, v5, "http://www.w3.org/2000/svg"@, v6);
    lemma_reopened(v6, "\" width=\""@, " width="@);
    lemma_yields_on(v0, t6, v6, "\" width=\""@, v7);
    assert(v0.rest + "<?xml version="@ =~= "<?xml version="@);
    assert(v7.parts =~= declared().parts);
}

} // verus!
