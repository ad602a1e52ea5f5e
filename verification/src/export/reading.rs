//! Reading written files back: what a viewer makes of them.
//!
//! Everything here describes how the formats are read. The laws say that reading
//! what was written gives back what was to be drawn.

use crate::color::Rgba8;
use crate::export::{
    eps, flattened, lemma_magnitude_characters, magnitude, numeral, op_text, ops_text, paths_text,
    pdf, point_text, rgb_text, Artwork, Fill, PagePoint, PathOp,
};
use crate::text::{
    decimal, digit, dropped, last_digits, lemma_decimal_digits, lemma_last_digits_digits,
};
use vstd::prelude::*;

verus! {

// ---- Numbers ------------------------------------------------------------

pub open spec fn ten_to(n: nat) -> nat
    decreases n,
{
    if n == 0 {
        1
    } else {
        10 * ten_to((n - 1) as nat)
    }
}

/// The digits of a number read so far: what they say without the point, whether the
/// point was met, and how many digits followed it.
pub ghost struct Scan {
    pub value: int,
    pub point: bool,
    pub places: nat,
}

/// Read a number digit by digit.
pub open spec fn scanned(s: Seq<char>) -> Scan
    decreases s.len(),
{
    if s.len() == 0 {
        Scan { value: 0, point: false, places: 0 }
    } else {
        let before = scanned(s.drop_last());
        if s.last() == '.' {
            Scan { point: true, ..before }
        } else {
            Scan {
                value: 10 * before.value + (s.last() as int - '0' as int),
                places: if before.point {
                    before.places + 1
                } else {
                    0
                },
                ..before
            }
        }
    }
}

/// A number without a sign, in units of the `p`-th decimal place.
pub open spec fn unsigned(s: Seq<char>, p: nat) -> int {
    scanned(s).value * ten_to((p - scanned(s).places) as nat)
}

/// A number in units of the `p`-th decimal place.
pub open spec fn number(s: Seq<char>, p: nat) -> int {
    if s.len() > 0 && s[0] == '-' {
        -unsigned(s.drop_first(), p)
    } else {
        unsigned(s, p)
    }
}

proof fn lemma_scan_push(s: Seq<char>, c: char)
    ensures
        c == '.' ==> scanned(s.push(c)) == (Scan { point: true, ..scanned(s) }),
        c != '.' ==> scanned(s.push(c)) == (Scan {
            value: 10 * scanned(s).value + (c as int - '0' as int),
            places: if scanned(s).point {
                scanned(s).places + 1
            } else {
                0
            },
            ..scanned(s)
        }),
{
    assert(s.push(c).drop_last() =~= s);
}

proof fn lemma_scan_decimal(n: nat)
    ensures
        scanned(decimal(n)) == (Scan { value: n as int, point: false, places: 0 }),
    decreases n,
{
    if n < 10 {
        assert(decimal(n) =~= Seq::<char>::empty().push(digit(n as int)));
        lemma_scan_push(Seq::empty(), digit(n as int));
    } else {
        lemma_scan_decimal(n / 10);
        lemma_scan_push(decimal(n / 10), digit((n % 10) as int));
    }
}

pub proof fn lemma_scan_fraction(m: nat, k: nat)
    ensures
        scanned(decimal(dropped(m, k)) + seq!['.'] + last_digits(m, k)) == (Scan {
            value: m as int,
            point: true,
            places: k,
        }),
    decreases k,
{
    let head = decimal(dropped(m, k)) + seq!['.'];
    if k == 0 {
        lemma_scan_decimal(m);
        assert(head + last_digits(m, k) =~= decimal(m).push('.'));
        lemma_scan_push(decimal(m), '.');
    } else {
        lemma_scan_fraction(m / 10, (k - 1) as nat);
        let before = head + last_digits(m / 10, (k - 1) as nat);
        assert(head + last_digits(m, k) =~= before.push(digit((m % 10) as int)));
        lemma_scan_push(before, digit((m % 10) as int));
    }
}

pub proof fn lemma_times_one(v: int)
    ensures
        v * ten_to(0) == v,
{
    let e = ten_to(0) as int;
    assert(v * e == v) by (nonlinear_arith)
        requires
            e == 1,
    ;
}

proof fn lemma_scan_magnitude(m: nat, p: nat)
    ensures
        scanned(magnitude(m, p)).places <= p,
        unsigned(magnitude(m, p), p) == m,
    decreases p,
{
    lemma_times_one(m as int);
    if p == 0 {
        lemma_scan_decimal(m);
    } else if m % 10 == 0 {
        lemma_scan_magnitude(m / 10, (p - 1) as nat);
        let s = scanned(magnitude(m / 10, (p - 1) as nat));
        let e = ten_to((p - 1 - s.places) as nat) as int;
        assert(ten_to((p - s.places) as nat) == 10 * e);
        let v = s.value;
        assert(v * (10 * e) == 10 * (v * e)) by (nonlinear_arith);
    } else {
        lemma_scan_fraction(m, p);
    }
}

/// Reading a number that was written gives it back, whatever the precision.
pub proof fn law_numbers_read_back(v: int, p: nat)
    ensures
        number(numeral(v, p), p) == v,
{
    if v < 0 {
        let m = magnitude((-v) as nat, p);
        lemma_scan_magnitude((-v) as nat, p);
        assert(numeral(v, p).drop_first() =~= m);
    } else {
        lemma_scan_magnitude(v as nat, p);
        lemma_first_character(v as nat, p);
    }
}

/// Reading a whole number that was written gives it back.
pub proof fn law_whole_numbers_read_back(n: nat)
    ensures
        number(decimal(n), 0) == n,
{
    lemma_scan_decimal(n);
    lemma_decimal_digits(n);
    lemma_times_one(n as int);
}

proof fn lemma_first_character(m: nat, p: nat)
    ensures
        magnitude(m, p).len() > 0,
        magnitude(m, p)[0] != '-',
    decreases p,
{
    lemma_magnitude_characters(m, p);
    if p == 0 {
        lemma_decimal_digits(m);
    } else if m % 10 == 0 {
        lemma_first_character(m / 10, (p - 1) as nat);
    } else {
        lemma_decimal_digits(dropped(m, p));
    }
}

// ---- Page descriptions --------------------------------------------------

/// What divides words.
pub open spec fn is_gap(c: char) -> bool {
    c == ' ' || c == '\n'
}

/// A step of a path, in units of the last decimal place.
pub ghost enum Drawn {
    Move(int, int),
    Line(int, int),
    Curve(int, int, int, int, int, int),
    Close,
    Rect(int, int, int, int),
}

/// A path filled by the nonzero winding rule, in a colour whose channels are counted in
/// steps of 1/10000.
pub ghost struct Painted {
    pub color: (int, int, int),
    pub path: Seq<Drawn>,
}

/// What a painting operator is for.
pub ghost enum Does {
    MoveTo,
    LineTo,
    CurveTo,
    ClosePath,
    Rectangle,
    Fill,
    FillRectangle,
    NewPath,
    SetColor,
    ShowPage,
}

/// A viewer in the middle of a page. It is no longer `sound` once it met something that
/// it cannot follow.
pub ghost struct Viewer {
    /// The word being read.
    pub word: Seq<char>,
    /// Operands not yet used.
    pub operands: Seq<Seq<char>>,
    pub color: (int, int, int),
    pub path: Seq<Drawn>,
    pub painted: Seq<Painted>,
    /// How often the page was shown.
    pub shown: nat,
    /// Comments, each a line that begins with a percent sign.
    pub notes: Seq<Seq<char>>,
    /// Names that were given to operators.
    pub names: Map<Seq<char>, Seq<char>>,
    pub sound: bool,
}

/// A viewer of an empty page.
pub open spec fn blank() -> Viewer {
    Viewer {
        word: seq![],
        operands: seq![],
        color: (0, 0, 0),
        path: seq![],
        painted: seq![],
        shown: 0,
        notes: seq![],
        names: Map::empty(),
        sound: true,
    }
}

/// Which language the viewer reads.
pub ghost enum Language {
    Pdf,
    PostScript,
}

/// The operators of PDF content.
pub open spec fn pdf_operator(w: Seq<char>) -> Option<Does> {
    if w == seq!['m'] {
        Some(Does::MoveTo)
    } else if w == seq!['l'] {
        Some(Does::LineTo)
    } else if w == seq!['c'] {
        Some(Does::CurveTo)
    } else if w == seq!['h'] {
        Some(Does::ClosePath)
    } else if w == seq!['r', 'e'] {
        Some(Does::Rectangle)
    } else if w == seq!['f'] {
        Some(Does::Fill)
    } else if w == seq!['r', 'g'] {
        Some(Does::SetColor)
    } else {
        None
    }
}

/// The operators of PostScript.
pub open spec fn postscript_operator(w: Seq<char>) -> Option<Does> {
    if w == seq!['m', 'o', 'v', 'e', 't', 'o'] {
        Some(Does::MoveTo)
    } else if w == seq!['l', 'i', 'n', 'e', 't', 'o'] {
        Some(Does::LineTo)
    } else if w == seq!['c', 'u', 'r', 'v', 'e', 't', 'o'] {
        Some(Does::CurveTo)
    } else if w == seq!['c', 'l', 'o', 's', 'e', 'p', 'a', 't', 'h'] {
        Some(Does::ClosePath)
    } else if w == seq!['f', 'i', 'l', 'l'] {
        Some(Does::Fill)
    } else if w == seq!['r', 'e', 'c', 't', 'f', 'i', 'l', 'l'] {
        Some(Does::FillRectangle)
    } else if w == seq!['n', 'e', 'w', 'p', 'a', 't', 'h'] {
        Some(Does::NewPath)
    } else if w == seq!['s', 'e', 't', 'r', 'g', 'b', 'c', 'o', 'l', 'o', 'r'] {
        Some(Does::SetColor)
    } else if w == seq!['s', 'h', 'o', 'w', 'p', 'a', 'g', 'e'] {
        Some(Does::ShowPage)
    } else {
        None
    }
}

/// Carry out an operator. Coordinates are in units of the `p`-th decimal place.
pub open spec fn performed(v: Viewer, does: Does, p: nat) -> Viewer {
    let n = v.operands.len();
    let at = |i: int| number(v.operands[i], p);
    let done = Viewer { operands: seq![], ..v };
    let lost = Viewer { sound: false, ..v };
    match does {
        Does::MoveTo => if n == 2 {
            Viewer { path: v.path.push(Drawn::Move(at(0), at(1))), ..done }
        } else {
            lost
        },
        Does::LineTo => if n == 2 {
            Viewer { path: v.path.push(Drawn::Line(at(0), at(1))), ..done }
        } else {
            lost
        },
        Does::CurveTo => if n == 6 {
            Viewer {
                path: v.path.push(Drawn::Curve(at(0), at(1), at(2), at(3), at(4), at(5))),
                ..done
            }
        } else {
            lost
        },
        Does::ClosePath => if n == 0 {
            Viewer { path: v.path.push(Drawn::Close), ..done }
        } else {
            lost
        },
        Does::Rectangle => if n == 4 {
            Viewer { path: v.path.push(Drawn::Rect(at(0), at(1), at(2), at(3))), ..done }
        } else {
            lost
        },
        Does::Fill => if n == 0 {
            Viewer {
                path: seq![],
                painted: v.painted.push(Painted { color: v.color, path: v.path }),
                ..done
            }
        } else {
            lost
        },
        Does::FillRectangle => if n == 4 {
            Viewer {
                painted: v.painted.push(
                    Painted {
                        color: v.color,
                        path: seq![Drawn::Rect(at(0), at(1), at(2), at(3))],
                    },
                ),
                ..done
            }
        } else {
            lost
        },
        Does::NewPath => if n == 0 {
            Viewer { path: seq![], ..done }
        } else {
            lost
        },
        Does::SetColor => if n == 3 {
            Viewer {
                color: (
                    number(v.operands[0], 4),
                    number(v.operands[1], 4),
                    number(v.operands[2], 4),
                ),
                ..done
            }
        } else {
            lost
        },
        Does::ShowPage => if n == 0 {
            Viewer { shown: v.shown + 1, ..done }
        } else {
            lost
        },
    }
}

/// Whether a word is a number.
pub open spec fn is_number(w: Seq<char>) -> bool {
    w.len() > 0 && (w[0] == '-' || '0' <= w[0] <= '9')
}

/// Follow a word.
pub open spec fn followed(v: Viewer, w: Seq<char>, lang: Language, p: nat) -> Viewer {
    if is_number(w) {
        Viewer { operands: v.operands.push(w), ..v }
    } else {
        match lang {
            Language::Pdf => match pdf_operator(w) {
                Some(does) => performed(v, does, p),
                None => Viewer { sound: false, ..v },
            },
            Language::PostScript => {
                if w[0] == '/' || w[0] == '{' {
                    Viewer { operands: v.operands.push(w), ..v }
                } else if w == seq!['b', 'i', 'n', 'd'] {
                    v
                } else if w == seq!['d', 'e', 'f'] {
                    if v.operands.len() == 2 && v.operands[0].len() > 1 && v.operands[1].len() > 2 {
                        Viewer {
                            operands: seq![],
                            names: v.names.insert(
                                v.operands[0].drop_first(),
                                v.operands[1].drop_first().drop_last(),
                            ),
                            ..v
                        }
                    } else {
                        Viewer { sound: false, ..v }
                    }
                } else {
                    let name = if v.names.contains_key(w) {
                        v.names[w]
                    } else {
                        w
                    };
                    match postscript_operator(name) {
                        Some(does) => performed(v, does, p),
                        None => Viewer { sound: false, ..v },
                    }
                }
            },
        }
    }
}

/// Read one character: a gap ends a word, which is then followed. A comment runs to the
/// end of its line.
pub open spec fn stepped(v: Viewer, c: char, lang: Language, p: nat) -> Viewer {
    if v.word.len() > 0 && v.word[0] == '%' {
        if c == '\n' {
            Viewer { word: seq![], notes: v.notes.push(v.word), ..v }
        } else {
            Viewer { word: v.word.push(c), ..v }
        }
    } else if !is_gap(c) {
        Viewer { word: v.word.push(c), ..v }
    } else if v.word.len() == 0 {
        v
    } else {
        followed(Viewer { word: seq![], ..v }, v.word, lang, p)
    }
}

/// Read a text.
pub open spec fn viewed(v: Viewer, s: Seq<char>, lang: Language, p: nat) -> Viewer
    decreases s.len(),
{
    if s.len() == 0 {
        v
    } else {
        stepped(viewed(v, s.drop_last(), lang, p), s.last(), lang, p)
    }
}

proof fn lemma_viewed_add(v: Viewer, a: Seq<char>, b: Seq<char>, lang: Language, p: nat)
    ensures
        viewed(v, a + b, lang, p) == viewed(viewed(v, a, lang, p), b, lang, p),
    decreases b.len(),
{
    if b.len() == 0 {
        assert(a + b =~= a);
    } else {
        assert((a + b).drop_last() =~= a + b.drop_last());
        lemma_viewed_add(v, a, b.drop_last(), lang, p);
    }
}

proof fn lemma_viewed_letters(v: Viewer, w: Seq<char>, lang: Language, p: nat)
    requires
        v.word.len() == 0,
        forall|i: int| 0 <= i < w.len() ==> !is_gap(#[trigger] w[i]),
    ensures
        viewed(v, w, lang, p) == (Viewer { word: w, ..v }),
    decreases w.len(),
{
    if w.len() > 0 {
        let rest = w.drop_last();
        assert forall|i: int| 0 <= i < rest.len() implies !is_gap(#[trigger] rest[i]) by {
            assert(!is_gap(w[i]));
        }
        lemma_viewed_letters(v, rest, lang, p);
        assert(!is_gap(w[w.len() - 1]));
        assert(rest.push(w.last()) =~= w);
    } else {
        assert(v.word =~= w);
    }
}

/// A word and the gap after it.
proof fn lemma_viewed_word(v: Viewer, w: Seq<char>, gap: char, lang: Language, p: nat)
    requires
        v.word.len() == 0,
        w.len() > 0,
        w[0] != '%',
        forall|i: int| 0 <= i < w.len() ==> !is_gap(#[trigger] w[i]),
        is_gap(gap),
    ensures
        viewed(v, w.push(gap), lang, p) == followed(v, w, lang, p),
{
    lemma_viewed_letters(v, w, lang, p);
    assert(w.push(gap).drop_last() =~= w);
    assert(v.word =~= Seq::<char>::empty());
    assert((Viewer { word: seq![], ..(Viewer { word: w, ..v }) }) == v);
}

pub proof fn lemma_numeral_word(x: int, p: nat)
    ensures
        is_number(numeral(x, p)),
        forall|i: int| 0 <= i < numeral(x, p).len() ==> !is_gap(#[trigger] numeral(x, p)[i]),
{
    let m = if x < 0 {
        (-x) as nat
    } else {
        x as nat
    };
    lemma_magnitude_characters(m, p);
    lemma_first_character(m, p);
    let text = numeral(x, p);
    assert forall|i: int| 0 <= i < text.len() implies !is_gap(#[trigger] text[i]) by {
        if x < 0 {
            if i > 0 {
                assert(text[i] == magnitude(m, p)[i - 1]);
            }
        } else {
            assert(text[i] == magnitude(m, p)[i]);
        }
    }
    if x >= 0 {
        lemma_no_leading_point(m, p);
        assert(text[0] == magnitude(m, p)[0]);
    }
}

proof fn lemma_no_leading_point(m: nat, p: nat)
    ensures
        magnitude(m, p).len() > 0,
        '0' <= magnitude(m, p)[0] <= '9',
    decreases p,
{
    if p == 0 {
        lemma_decimal_digits(m);
    } else if m % 10 == 0 {
        lemma_no_leading_point(m / 10, (p - 1) as nat);
    } else {
        lemma_decimal_digits(dropped(m, p));
        assert(magnitude(m, p)[0] == decimal(dropped(m, p))[0]);
    }
}

/// A number and the space after it are one more operand.
proof fn lemma_viewed_number(v: Viewer, x: int, q: nat, lang: Language, p: nat)
    requires
        v.word.len() == 0,
    ensures
        viewed(v, numeral(x, q) + " "@, lang, p) == (Viewer {
            operands: v.operands.push(numeral(x, q)),
            ..v
        }),
{
    reveal_strlit(" ");
    lemma_numeral_word(x, q);
    assert(numeral(x, q) + " "@ =~= numeral(x, q).push(' '));
    lemma_viewed_word(v, numeral(x, q), ' ', lang, p);
}

/// A viewer between two operators.
pub open spec fn is_idle(v: Viewer) -> bool {
    v.word.len() == 0 && v.operands.len() == 0 && v.sound
}

/// The viewer knows the short names of the operators that draw and fill paths.
pub open spec fn knows_names(v: Viewer, lang: Language) -> bool {
    lang is PostScript ==> {
        &&& v.names.contains_key(seq!['m']) && v.names[seq!['m']] == seq![
            'm',
            'o',
            'v',
            'e',
            't',
            'o',
        ]
        &&& v.names.contains_key(seq!['l']) && v.names[seq!['l']] == seq![
            'l',
            'i',
            'n',
            'e',
            't',
            'o',
        ]
        &&& v.names.contains_key(seq!['c']) && v.names[seq!['c']] == seq![
            'c',
            'u',
            'r',
            'v',
            'e',
            't',
            'o',
        ]
        &&& v.names.contains_key(seq!['h']) && v.names[seq!['h']] == seq![
            'c',
            'l',
            'o',
            's',
            'e',
            'p',
            'a',
            't',
            'h',
        ]
        &&& v.names.contains_key(seq!['f']) && v.names[seq!['f']] == seq!['f', 'i', 'l', 'l']
        &&& v.names.contains_key(seq!['r', 'g']) && v.names[seq!['r', 'g']] == seq![
            's',
            'e',
            't',
            'r',
            'g',
            'b',
            'c',
            'o',
            'l',
            'o',
            'r',
        ]
    }
}

/// What a word of one letter, with which an operator is called, does.
proof fn lemma_short_names(v: Viewer, lang: Language, p: nat)
    requires
        knows_names(v, lang),
    ensures
        followed(v, seq!['m'], lang, p) == performed(v, Does::MoveTo, p),
        followed(v, seq!['l'], lang, p) == performed(v, Does::LineTo, p),
        followed(v, seq!['c'], lang, p) == performed(v, Does::CurveTo, p),
        followed(v, seq!['h'], lang, p) == performed(v, Does::ClosePath, p),
        followed(v, seq!['f'], lang, p) == performed(v, Does::Fill, p),
        followed(v, seq!['r', 'g'], lang, p) == performed(v, Does::SetColor, p),
{
    let m = seq!['m'];
    let l = seq!['l'];
    let c = seq!['c'];
    let h = seq!['h'];
    let f = seq!['f'];
    let rg = seq!['r', 'g'];
    assert(m[0] == 'm' && l[0] == 'l' && c[0] == 'c' && h[0] == 'h' && f[0] == 'f' && rg[0] == 'r');
    assert(rg.len() == 2 && rg[1] == 'g');
    assert(seq!['r', 'e'][1] == 'e');
    lemma_operator_names();
}

proof fn lemma_operator_names()
    ensures
        postscript_operator(seq!['m', 'o', 'v', 'e', 't', 'o']) == Some(Does::MoveTo),
        postscript_operator(seq!['l', 'i', 'n', 'e', 't', 'o']) == Some(Does::LineTo),
        postscript_operator(seq!['c', 'u', 'r', 'v', 'e', 't', 'o']) == Some(Does::CurveTo),
        postscript_operator(seq!['c', 'l', 'o', 's', 'e', 'p', 'a', 't', 'h']) == Some(
            Does::ClosePath,
        ),
        postscript_operator(seq!['f', 'i', 'l', 'l']) == Some(Does::Fill),
        postscript_operator(seq!['r', 'e', 'c', 't', 'f', 'i', 'l', 'l']) == Some(
            Does::FillRectangle,
        ),
        postscript_operator(seq!['n', 'e', 'w', 'p', 'a', 't', 'h']) == Some(Does::NewPath),
        postscript_operator(seq!['s', 'e', 't', 'r', 'g', 'b', 'c', 'o', 'l', 'o', 'r']) == Some(
            Does::SetColor,
        ),
        postscript_operator(seq!['s', 'h', 'o', 'w', 'p', 'a', 'g', 'e']) == Some(Does::ShowPage),
{
    let a = seq!['m', 'o', 'v', 'e', 't', 'o'];
    let b = seq!['l', 'i', 'n', 'e', 't', 'o'];
    let c = seq!['c', 'u', 'r', 'v', 'e', 't', 'o'];
    let d = seq!['c', 'l', 'o', 's', 'e', 'p', 'a', 't', 'h'];
    let e = seq!['f', 'i', 'l', 'l'];
    let f = seq!['r', 'e', 'c', 't', 'f', 'i', 'l', 'l'];
    let g = seq!['n', 'e', 'w', 'p', 'a', 't', 'h'];
    let h = seq!['s', 'e', 't', 'r', 'g', 'b', 'c', 'o', 'l', 'o', 'r'];
    let i = seq!['s', 'h', 'o', 'w', 'p', 'a', 'g', 'e'];
    assert(a[0] == 'm' && b[0] == 'l' && c[0] == 'c' && d[0] == 'c' && e[0] == 'f' && f[0] == 'r'
        && g[0] == 'n' && h[0] == 's' && i[0] == 's');
    assert(c.len() == 7 && d.len() == 9 && h.len() == 11 && i.len() == 8);
}

/// A position and what follows it on a page.
proof fn lemma_viewed_point(v: Viewer, q: PagePoint, lang: Language, p: nat)
    requires
        v.word.len() == 0,
    ensures
        viewed(v, point_text(q, p), lang, p) == (Viewer {
            operands: v.operands.push(numeral(q.x as int, p)).push(numeral(q.y as int, p)),
            ..v
        }),
{
    let x = numeral(q.x as int, p) + " "@;
    let y = numeral(q.y as int, p) + " "@;
    assert(point_text(q, p) =~= x + y);
    lemma_viewed_add(v, x, y, lang, p);
    lemma_viewed_number(v, q.x as int, p, lang, p);
    let w = viewed(v, x, lang, p);
    lemma_viewed_number(w, q.y as int, p, lang, p);
}

/// What an operation draws.
pub open spec fn drawn(op: PathOp) -> Drawn {
    match op {
        PathOp::Move(a) => Drawn::Move(a.x as int, a.y as int),
        PathOp::Line(a) => Drawn::Line(a.x as int, a.y as int),
        PathOp::Curve(a, b, c) => Drawn::Curve(
            a.x as int,
            a.y as int,
            b.x as int,
            b.y as int,
            c.x as int,
            c.y as int,
        ),
        PathOp::Close => Drawn::Close,
    }
}

proof fn lemma_viewed_op(v: Viewer, op: PathOp, lang: Language, p: nat)
    requires
        is_idle(v),
        knows_names(v, lang),
    ensures
        viewed(v, op_text(op, p), lang, p) == (Viewer { path: v.path.push(drawn(op)), ..v }),
{
    reveal_strlit("m\n");
    reveal_strlit("l\n");
    reveal_strlit("c\n");
    reveal_strlit("h\n");
    assert("m\n"@ =~= seq!['m'].push('\n'));
    assert("l\n"@ =~= seq!['l'].push('\n'));
    assert("c\n"@ =~= seq!['c'].push('\n'));
    assert("h\n"@ =~= seq!['h'].push('\n'));
    match op {
        PathOp::Move(a) => {
            lemma_viewed_point(v, a, lang, p);
            let w = viewed(v, point_text(a, p), lang, p);
            lemma_viewed_add(v, point_text(a, p), "m\n"@, lang, p);
            lemma_viewed_word(w, seq!['m'], '\n', lang, p);
            lemma_short_names(w, lang, p);
            law_numbers_read_back(a.x as int, p);
            law_numbers_read_back(a.y as int, p);
            lemma_cleared(v, w);
        },
        PathOp::Line(a) => {
            lemma_viewed_point(v, a, lang, p);
            let w = viewed(v, point_text(a, p), lang, p);
            lemma_viewed_add(v, point_text(a, p), "l\n"@, lang, p);
            lemma_viewed_word(w, seq!['l'], '\n', lang, p);
            lemma_short_names(w, lang, p);
            law_numbers_read_back(a.x as int, p);
            law_numbers_read_back(a.y as int, p);
            lemma_cleared(v, w);
        },
        PathOp::Curve(a, b, c) => {
            lemma_viewed_point(v, a, lang, p);
            let w1 = viewed(v, point_text(a, p), lang, p);
            lemma_viewed_add(v, point_text(a, p), point_text(b, p), lang, p);
            lemma_viewed_point(w1, b, lang, p);
            let two = point_text(a, p) + point_text(b, p);
            let w2 = viewed(v, two, lang, p);
            lemma_viewed_add(v, two, point_text(c, p), lang, p);
            lemma_viewed_point(w2, c, lang, p);
            let three = two + point_text(c, p);
            let w3 = viewed(v, three, lang, p);
            lemma_viewed_add(v, three, "c\n"@, lang, p);
            lemma_viewed_word(w3, seq!['c'], '\n', lang, p);
            lemma_short_names(w3, lang, p);
            law_numbers_read_back(a.x as int, p);
            law_numbers_read_back(a.y as int, p);
            law_numbers_read_back(b.x as int, p);
            law_numbers_read_back(b.y as int, p);
            law_numbers_read_back(c.x as int, p);
            law_numbers_read_back(c.y as int, p);
            lemma_cleared(v, w3);
        },
        PathOp::Close => {
            lemma_viewed_word(v, seq!['h'], '\n', lang, p);
            lemma_short_names(v, lang, p);
            lemma_cleared(v, v);
        },
    }
}

/// Once its operands are used up a viewer is as before.
proof fn lemma_cleared(v: Viewer, w: Viewer)
    requires
        is_idle(v),
        w == (Viewer { operands: w.operands, ..v }),
    ensures
        (Viewer { operands: seq![], ..w }) == v,
{
    assert(v.operands =~= seq![]);
}

/// What the operations of a path draw.
pub open spec fn ops_drawn(ops: Seq<PathOp>) -> Seq<Drawn> {
    Seq::new(ops.len(), |k: int| drawn(ops[k]))
}

/// What the paths of a shape draw, one after the other.
pub open spec fn paths_drawn(paths: Seq<Vec<PathOp>>) -> Seq<Drawn>
    decreases paths.len(),
{
    if paths.len() == 0 {
        seq![]
    } else {
        paths_drawn(paths.drop_last()) + ops_drawn(paths.last()@)
    }
}

proof fn lemma_viewed_ops(v: Viewer, ops: Seq<PathOp>, lang: Language, p: nat)
    requires
        is_idle(v),
        knows_names(v, lang),
    ensures
        viewed(v, ops_text(ops, p), lang, p) == (Viewer { path: v.path + ops_drawn(ops), ..v }),
    decreases ops.len(),
{
    if ops.len() == 0 {
        assert(v.path + ops_drawn(ops) =~= v.path);
    } else {
        let rest = ops.drop_last();
        lemma_viewed_ops(v, rest, lang, p);
        lemma_viewed_add(v, ops_text(rest, p), op_text(ops.last(), p), lang, p);
        let w = viewed(v, ops_text(rest, p), lang, p);
        lemma_viewed_op(w, ops.last(), lang, p);
        assert((v.path + ops_drawn(rest)).push(drawn(ops.last())) =~= v.path + ops_drawn(ops));
    }
}

proof fn lemma_viewed_paths(v: Viewer, paths: Seq<Vec<PathOp>>, lang: Language, p: nat)
    requires
        is_idle(v),
        knows_names(v, lang),
    ensures
        viewed(v, paths_text(paths, p), lang, p) == (Viewer {
            path: v.path + paths_drawn(paths),
            ..v
        }),
    decreases paths.len(),
{
    if paths.len() == 0 {
        assert(v.path + paths_drawn(paths) =~= v.path);
    } else {
        let rest = paths.drop_last();
        lemma_viewed_paths(v, rest, lang, p);
        lemma_viewed_add(v, paths_text(rest, p), ops_text(paths.last()@, p), lang, p);
        let w = viewed(v, paths_text(rest, p), lang, p);
        lemma_viewed_ops(w, paths.last()@, lang, p);
        assert((v.path + paths_drawn(rest)) + ops_drawn(paths.last()@) =~= v.path + paths_drawn(
            paths,
        ));
    }
}

/// The channels of a colour on white: red, green and blue, in steps of 1/10000.
pub open spec fn shade(c: Rgba8) -> (int, int, int) {
    (flattened(c.r, c.a), flattened(c.g, c.a), flattened(c.b, c.a))
}

/// A colour and the gap after it.
proof fn lemma_viewed_color(v: Viewer, c: Rgba8, gap: char, lang: Language, p: nat)
    requires
        is_idle(v),
        knows_names(v, lang),
        is_gap(gap),
    ensures
        viewed(v, rgb_text(c).push(gap), lang, p) == (Viewer { color: shade(c), ..v }),
{
    let (r, g, b) = shade(c);
    let x = numeral(r, 4) + " "@;
    let y = numeral(g, 4) + " "@;
    let z = numeral(b, 4) + " "@;
    let end = seq!['r', 'g'].push(gap);
    reveal_strlit(" ");
    reveal_strlit(" rg");
    assert(rgb_text(c).push(gap) =~= x + y + z + end);
    lemma_viewed_number(v, r, 4, lang, p);
    let w1 = viewed(v, x, lang, p);
    lemma_viewed_add(v, x, y, lang, p);
    lemma_viewed_number(w1, g, 4, lang, p);
    let w2 = viewed(v, x + y, lang, p);
    lemma_viewed_add(v, x + y, z, lang, p);
    lemma_viewed_number(w2, b, 4, lang, p);
    let w3 = viewed(v, x + y + z, lang, p);
    lemma_viewed_add(v, x + y + z, end, lang, p);
    lemma_viewed_word(w3, seq!['r', 'g'], gap, lang, p);
    lemma_short_names(w3, lang, p);
    law_numbers_read_back(r, 4);
    law_numbers_read_back(g, 4);
    law_numbers_read_back(b, 4);
    lemma_cleared(v, w3);
}

/// What the shapes of a page are painted as, in order. A shape without subpaths is not
/// painted.
pub open spec fn fills_painted(fills: Seq<Fill>) -> Seq<Painted>
    decreases fills.len(),
{
    if fills.len() == 0 {
        seq![]
    } else if fills.last().paths@.len() == 0 {
        fills_painted(fills.drop_last())
    } else {
        fills_painted(fills.drop_last()).push(
            Painted { color: shade(fills.last().color), path: paths_drawn(fills.last().paths@) },
        )
    }
}

/// What a page is painted as: the backdrop, from edge to edge, and then its shapes.
pub open spec fn page_painted(page: Artwork) -> Seq<Painted> {
    backdrop_painted(page.background, page.width as int, page.height as int) + fills_painted(
        page.fills@,
    )
}

/// Read after a viewer that paints into an empty path, what has been painted is what was
/// painted before and `more`.
pub open spec fn has_painted(v: Viewer, w: Viewer, more: Seq<Painted>) -> bool {
    w == (Viewer { color: w.color, painted: v.painted + more, ..v })
}

proof fn lemma_pdf_fill(v: Viewer, f: Fill, p: nat)
    requires
        is_idle(v),
        v.path.len() == 0,
    ensures
        has_painted(v, viewed(v, pdf::fill_text(f, p), Language::Pdf, p), fills_painted(seq![f])),
{
    let lang = Language::Pdf;
    let one = seq![f];
    assert(one.last() == f);
    assert(one.drop_last().len() == 0);
    assert(fills_painted(one.drop_last()) =~= seq![]);
    if f.paths@.len() == 0 {
        assert(v.painted + fills_painted(one) =~= v.painted);
    } else {
        reveal_strlit("\n");
        reveal_strlit("f\n");
        assert("f\n"@ =~= seq!['f'].push('\n'));
        let head = rgb_text(f.color).push('\n');
        let body = paths_text(f.paths@, p);
        assert(pdf::fill_text(f, p) =~= head + body + "f\n"@);
        lemma_viewed_color(v, f.color, '\n', lang, p);
        let w1 = viewed(v, head, lang, p);
        lemma_viewed_add(v, head, body, lang, p);
        lemma_viewed_paths(w1, f.paths@, lang, p);
        let w2 = viewed(v, head + body, lang, p);
        lemma_viewed_add(v, head + body, "f\n"@, lang, p);
        lemma_viewed_word(w2, seq!['f'], '\n', lang, p);
        lemma_short_names(w2, lang, p);
        assert(v.path + paths_drawn(f.paths@) =~= paths_drawn(f.paths@));
        assert(v.path =~= seq![]);
        assert(v.operands =~= seq![]);
        let painted = Painted { color: shade(f.color), path: paths_drawn(f.paths@) };
        assert(v.painted.push(painted) =~= v.painted + fills_painted(one));
    }
}

proof fn lemma_fills_painted_add(fills: Seq<Fill>)
    requires
        fills.len() > 0,
    ensures
        fills_painted(fills) == fills_painted(fills.drop_last()) + fills_painted(
            seq![fills.last()],
        ),
{
    let one = seq![fills.last()];
    assert(one.last() == fills.last());
    assert(one.drop_last().len() == 0);
    assert(fills_painted(one.drop_last()) =~= seq![]);
    assert(fills_painted(fills) =~= fills_painted(fills.drop_last()) + fills_painted(one));
}

proof fn lemma_pdf_fills(v: Viewer, fills: Seq<Fill>, p: nat)
    requires
        is_idle(v),
        v.path.len() == 0,
    ensures
        has_painted(v, viewed(v, pdf::fills_text(fills, p), Language::Pdf, p), fills_painted(fills)),
    decreases fills.len(),
{
    if fills.len() == 0 {
        assert(v.painted + fills_painted(fills) =~= v.painted);
    } else {
        let rest = fills.drop_last();
        lemma_pdf_fills(v, rest, p);
        let w = viewed(v, pdf::fills_text(rest, p), Language::Pdf, p);
        lemma_viewed_add(
            v,
            pdf::fills_text(rest, p),
            pdf::fill_text(fills.last(), p),
            Language::Pdf,
            p,
        );
        lemma_pdf_fill(w, fills.last(), p);
        lemma_fills_painted_add(fills);
        assert((v.painted + fills_painted(rest)) + fills_painted(seq![fills.last()]) =~= v.painted
            + fills_painted(fills));
    }
}

/// The corner and the size of a rectangle, each number with a space after it.
pub open spec fn rect_text(w: int, h: int, p: nat) -> Seq<char> {
    numeral(0, p) + " "@ + (numeral(0, p) + " "@) + (numeral(w, p) + " "@) + (numeral(h, p) + " "@)
}

proof fn lemma_viewed_rect(v: Viewer, w: int, h: int, lang: Language, p: nat)
    requires
        is_idle(v),
    ensures
        viewed(v, rect_text(w, h, p), lang, p) == (Viewer {
            operands: seq![numeral(0, p), numeral(0, p), numeral(w, p), numeral(h, p)],
            ..v
        }),
{
    let zero = numeral(0, p) + " "@;
    let wide = numeral(w, p) + " "@;
    let tall = numeral(h, p) + " "@;
    lemma_viewed_number(v, 0, p, lang, p);
    let w1 = viewed(v, zero, lang, p);
    lemma_viewed_add(v, zero, zero, lang, p);
    lemma_viewed_number(w1, 0, p, lang, p);
    let w2 = viewed(v, zero + zero, lang, p);
    lemma_viewed_add(v, zero + zero, wide, lang, p);
    lemma_viewed_number(w2, w, p, lang, p);
    let w3 = viewed(v, zero + zero + wide, lang, p);
    lemma_viewed_add(v, zero + zero + wide, tall, lang, p);
    lemma_viewed_number(w3, h, p, lang, p);
    assert(v.operands.push(numeral(0, p)).push(numeral(0, p)).push(numeral(w, p)).push(
        numeral(h, p),
    ) =~= seq![numeral(0, p), numeral(0, p), numeral(w, p), numeral(h, p)]);
}

/// What the backdrop of a page is painted as.
pub open spec fn backdrop_painted(bg: Option<Rgba8>, w: int, h: int) -> Seq<Painted> {
    match bg {
        Some(c) => seq![Painted { color: shade(c), path: seq![Drawn::Rect(0, 0, w, h)] }],
        None => seq![],
    }
}

proof fn lemma_pdf_backdrop_text(c: Rgba8, x: int, y: int, p: nat)
    ensures
        pdf::backdrop(Some(c), x, y, p) == rgb_text(c).push(' ') + rect_text(x, y, p) + seq![
            'r',
            'e',
        ].push(' ') + seq!['f'].push('\n'),
{
    reveal_strlit(" 0 0 ");
    reveal_strlit(" ");
    reveal_strlit(" re f\n");
    lemma_zero(p);
    assert(pdf::backdrop(Some(c), x, y, p) =~= rgb_text(c).push(' ') + rect_text(x, y, p) + seq![
        'r',
        'e',
    ].push(' ') + seq!['f'].push('\n'));
}

proof fn lemma_pdf_rectangle(v: Viewer, x: int, y: int, p: nat)
    requires
        is_idle(v),
        v.path.len() == 0,
    ensures
        viewed(
            v,
            rect_text(x, y, p) + seq!['r', 'e'].push(' ') + seq!['f'].push('\n'),
            Language::Pdf,
            p,
        ) == (Viewer {
            painted: v.painted.push(
                Painted { color: v.color, path: seq![Drawn::Rect(0, 0, x, y)] },
            ),
            ..v
        }),
{
    let lang = Language::Pdf;
    let rect = rect_text(x, y, p);
    let re = seq!['r', 'e'].push(' ');
    let f = seq!['f'].push('\n');
    lemma_viewed_rect(v, x, y, lang, p);
    let w1 = viewed(v, rect, lang, p);
    lemma_viewed_add(v, rect, re, lang, p);
    assert(seq!['r', 'e'][0] == 'r' && seq!['r', 'e'][1] == 'e');
    lemma_viewed_word(w1, seq!['r', 'e'], ' ', lang, p);
    assert(followed(w1, seq!['r', 'e'], lang, p) == performed(w1, Does::Rectangle, p));
    law_numbers_read_back(0, p);
    law_numbers_read_back(x, p);
    law_numbers_read_back(y, p);
    let w2 = viewed(v, rect + re, lang, p);
    lemma_cleared(v, w1);
    assert(v.path.push(Drawn::Rect(0, 0, x, y)) =~= seq![Drawn::Rect(0, 0, x, y)]);
    assert(w2 == (Viewer { path: seq![Drawn::Rect(0, 0, x, y)], ..v }));
    lemma_viewed_add(v, rect + re, f, lang, p);
    lemma_viewed_word(w2, seq!['f'], '\n', lang, p);
    lemma_short_names(w2, lang, p);
    assert(v.path =~= seq![]);
    assert(v.operands =~= seq![]);
}

proof fn lemma_pdf_backdrop(bg: Option<Rgba8>, x: int, y: int, p: nat)
    ensures
        has_painted(
            blank(),
            viewed(blank(), pdf::backdrop(bg, x, y, p), Language::Pdf, p),
            backdrop_painted(bg, x, y),
        ),
{
    let lang = Language::Pdf;
    let v = blank();
    match bg {
        None => {
            assert(v.painted + backdrop_painted(bg, x, y) =~= v.painted);
        },
        Some(c) => {
            lemma_pdf_backdrop_text(c, x, y, p);
            let head = rgb_text(c).push(' ');
            let tail = rect_text(x, y, p) + seq!['r', 'e'].push(' ') + seq!['f'].push('\n');
            assert(pdf::backdrop(bg, x, y, p) =~= head + tail);
            lemma_viewed_color(v, c, ' ', lang, p);
            let w = viewed(v, head, lang, p);
            lemma_viewed_add(v, head, tail, lang, p);
            lemma_pdf_rectangle(w, x, y, p);
            let painted = Painted { color: shade(c), path: seq![Drawn::Rect(0, 0, x, y)] };
            assert(v.painted.push(painted) =~= v.painted + backdrop_painted(bg, x, y));
        },
    }
}

pub proof fn lemma_zero(p: nat)
    ensures
        numeral(0, p) == seq!['0'],
    decreases p,
{
    if p > 0 {
        lemma_zero((p - 1) as nat);
    } else {
        assert(decimal(0) =~= seq!['0']);
    }
}

/// A viewer that reads the content of a PDF page paints the page: every shape that has
/// subpaths is filled once, by the nonzero rule, in its own colour, after the shapes
/// before it, and nothing else is painted. Nothing is left over.
pub proof fn law_pdf_content_paints_the_page(page: Artwork, p: nat)
    ensures
        ({
            let v = viewed(blank(), pdf::content(page, p), Language::Pdf, p);
            &&& v.painted == page_painted(page)
            &&& v.sound
            &&& v.word.len() == 0
            &&& v.operands.len() == 0
            &&& v.path.len() == 0
        }),
{
    let back = pdf::backdrop(page.background, page.width as int, page.height as int, p);
    lemma_pdf_backdrop(page.background, page.width as int, page.height as int, p);
    lemma_viewed_add(blank(), back, pdf::fills_text(page.fills@, p), Language::Pdf, p);
    let w = viewed(blank(), back, Language::Pdf, p);
    lemma_pdf_fills(w, page.fills@, p);
    assert((blank().painted + backdrop_painted(
        page.background,
        page.width as int,
        page.height as int,
    )) + fills_painted(page.fills@) =~= page_painted(page));
}

// ---- PostScript ---------------------------------------------------------

/// A comment and the end of its line.
proof fn lemma_viewed_note(v: Viewer, note: Seq<char>, lang: Language, p: nat)
    requires
        v.word.len() == 0,
        note.len() > 0,
        note[0] == '%',
        forall|i: int| 0 <= i < note.len() ==> #[trigger] note[i] != '\n',
    ensures
        viewed(v, note.push('\n'), lang, p) == (Viewer { notes: v.notes.push(note), ..v }),
{
    lemma_viewed_note_letters(v, note, lang, p);
    assert(note.push('\n').drop_last() =~= note);
    assert(v.word =~= seq![]);
}

proof fn lemma_viewed_note_letters(v: Viewer, note: Seq<char>, lang: Language, p: nat)
    requires
        v.word.len() == 0,
        note.len() > 0,
        note[0] == '%',
        forall|i: int| 0 <= i < note.len() ==> #[trigger] note[i] != '\n',
    ensures
        viewed(v, note, lang, p) == (Viewer { word: note, ..v }),
    decreases note.len(),
{
    let rest = note.drop_last();
    if rest.len() == 0 {
        assert(viewed(v, rest, lang, p) == v);
        assert(v.word.push('%') =~= note);
        assert(note.last() == note[0]);
    } else {
        assert forall|i: int| 0 <= i < rest.len() implies #[trigger] rest[i] != '\n' by {
            assert(note[i] != '\n');
        }
        lemma_viewed_note_letters(v, rest, lang, p);
        assert(note[note.len() - 1] != '\n');
        assert(rest.push(note.last()) =~= note);
    }
}

/// A short name for an operator, as it is given in PostScript.
pub open spec fn definition_text(name: Seq<char>, body: Seq<char>) -> Seq<char> {
    (seq!['/'] + name).push(' ') + (seq!['{'] + body + seq!['}']).push(' ') + seq![
        'b',
        'i',
        'n',
        'd',
    ].push(' ') + seq!['d', 'e', 'f'].push('\n')
}

proof fn lemma_definition(v: Viewer, name: Seq<char>, body: Seq<char>, p: nat)
    requires
        is_idle(v),
        name.len() > 0,
        body.len() > 0,
        forall|i: int| 0 <= i < name.len() ==> !is_gap(#[trigger] name[i]),
        forall|i: int| 0 <= i < body.len() ==> !is_gap(#[trigger] body[i]),
    ensures
        viewed(v, definition_text(name, body), Language::PostScript, p) == (Viewer {
            names: v.names.insert(name, body),
            ..v
        }),
{
    let lang = Language::PostScript;
    let a = seq!['/'] + name;
    let b = seq!['{'] + body + seq!['}'];
    let c = seq!['b', 'i', 'n', 'd'];
    let d = seq!['d', 'e', 'f'];
    assert(a[0] == '/' && b[0] == '{');
    assert forall|i: int| 0 <= i < a.len() implies !is_gap(#[trigger] a[i]) by {
        if i > 0 {
            assert(!is_gap(name[i - 1]));
        }
    }
    assert forall|i: int| 0 <= i < b.len() implies !is_gap(#[trigger] b[i]) by {
        if 0 < i <= body.len() {
            assert(!is_gap(body[i - 1]));
        }
    }
    lemma_viewed_word(v, a, ' ', lang, p);
    let w1 = viewed(v, a.push(' '), lang, p);
    lemma_viewed_add(v, a.push(' '), b.push(' '), lang, p);
    lemma_viewed_word(w1, b, ' ', lang, p);
    let w2 = viewed(v, a.push(' ') + b.push(' '), lang, p);
    assert(c[0] == 'b' && d[0] == 'd');
    lemma_viewed_add(v, a.push(' ') + b.push(' '), c.push(' '), lang, p);
    lemma_viewed_word(w2, c, ' ', lang, p);
    lemma_viewed_add(v, a.push(' ') + b.push(' ') + c.push(' '), d.push('\n'), lang, p);
    lemma_viewed_word(w2, d, '\n', lang, p);
    assert(w2.operands =~= seq![a, b]);
    assert(d.len() == 3 && c.len() == 4);
    assert(a.drop_first() =~= name);
    assert(b.drop_first().drop_last() =~= body);
    assert(v.operands =~= seq![]);
}

proof fn lemma_definition_texts()
    ensures
        "/m {moveto} bind def\n"@ == definition_text(seq!['m'], seq!['m', 'o', 'v', 'e', 't', 'o']),
        "/l {lineto} bind def\n"@ == definition_text(seq!['l'], seq!['l', 'i', 'n', 'e', 't', 'o']),
        "/c {curveto} bind def\n"@ == definition_text(seq!['c'], seq!['c', 'u', 'r', 'v', 'e', 't', 'o']),
        "/h {closepath} bind def\n"@ == definition_text(seq!['h'], seq!['c', 'l', 'o', 's', 'e', 'p', 'a', 't', 'h']),
        "/f {fill} bind def\n"@ == definition_text(seq!['f'], seq!['f', 'i', 'l', 'l']),
        "/rg {setrgbcolor} bind def\n"@ == definition_text(seq!['r', 'g'], seq!['s', 'e', 't', 'r', 'g', 'b', 'c', 'o', 'l', 'o', 'r']),
{
    reveal_strlit("/m {moveto} bind def\n");
    assert("/m {moveto} bind def\n"@ =~= definition_text(seq!['m'], seq!['m', 'o', 'v', 'e', 't', 'o']));
    reveal_strlit("/l {lineto} bind def\n");
    assert("/l {lineto} bind def\n"@ =~= definition_text(seq!['l'], seq!['l', 'i', 'n', 'e', 't', 'o']));
    reveal_strlit("/c {curveto} bind def\n");
    assert("/c {curveto} bind def\n"@ =~= definition_text(seq!['c'], seq!['c', 'u', 'r', 'v', 'e', 't', 'o']));
    reveal_strlit("/h {closepath} bind def\n");
    assert("/h {closepath} bind def\n"@ =~= definition_text(seq!['h'], seq!['c', 'l', 'o', 's', 'e', 'p', 'a', 't', 'h']));
    reveal_strlit("/f {fill} bind def\n");
    assert("/f {fill} bind def\n"@ =~= definition_text(seq!['f'], seq!['f', 'i', 'l', 'l']));
    reveal_strlit("/rg {setrgbcolor} bind def\n");
    assert("/rg {setrgbcolor} bind def\n"@ =~= definition_text(seq!['r', 'g'], seq!['s', 'e', 't', 'r', 'g', 'b', 'c', 'o', 'l', 'o', 'r']));
}

/// The size of the page, as a comment.
proof fn lemma_size_line(v: Viewer, head: Seq<char>, wide: Seq<char>, tall: Seq<char>, p: nat)
    requires
        v.word.len() == 0,
        head.len() > 1,
        head[0] == '%',
        forall|i: int| 0 <= i < head.len() ==> #[trigger] head[i] != '\n',
        forall|i: int| 0 <= i < wide.len() ==> !is_gap(#[trigger] wide[i]),
        forall|i: int| 0 <= i < tall.len() ==> !is_gap(#[trigger] tall[i]),
    ensures
        leads(
            v,
            head + wide + " "@ + tall + "\n"@,
            noted(v, head + wide + " "@ + tall),
            p,
        ),
{
    reveal(leads);
    reveal_strlit(" ");
    reveal_strlit("\n");
    let note = head + wide + " "@ + tall;
    assert forall|i: int| 0 <= i < note.len() implies #[trigger] note[i] != '\n' by {
        if i < head.len() {
            assert(note[i] == head[i]);
        } else if i < head.len() + wide.len() {
            assert(note[i] == wide[i - head.len()]);
        } else if i > head.len() + wide.len() {
            assert(note[i] == tall[i - head.len() - wide.len() - 1]);
        }
    }
    assert(note + "\n"@ =~= note.push('\n'));
    assert(note[0] == head[0]);
    lemma_viewed_note(v, note, Language::PostScript, p);
}

/// What the comments at the top of the page say.
pub open spec fn notes_read(w: int, h: int, width: nat, height: nat, p: nat) -> Seq<Seq<char>> {
    seq![
        "%!PS-Adobe-3.0 EPSF-3.0"@,
        "%%Creator: Vectify"@,
        "%%Title: vectify-output"@,
        "%%BoundingBox: 0 0 "@ + decimal(width) + " "@ + decimal(height),
        "%%HiResBoundingBox: 0 0 "@ + numeral(w, p) + " "@ + numeral(h, p),
        "%%LanguageLevel: 2"@,
        "%%EndComments"@,
    ]
}

/// Reading a text takes a viewer of PostScript from one state to another.
#[verifier::opaque]
pub open spec fn leads(v: Viewer, s: Seq<char>, w: Viewer, p: nat) -> bool {
    viewed(v, s, Language::PostScript, p) == w
}

proof fn lemma_leads_on(v: Viewer, a: Seq<char>, w: Viewer, b: Seq<char>, x: Viewer, p: nat)
    requires
        leads(v, a, w, p),
        leads(w, b, x, p),
    ensures
        leads(v, a + b, x, p),
{
    reveal(leads);
    lemma_viewed_add(v, a, b, Language::PostScript, p);
}

/// A viewer that read one comment more.
pub open spec fn noted(v: Viewer, note: Seq<char>) -> Viewer {
    Viewer { notes: v.notes.push(note), ..v }
}

/// A viewer that learned one name more.
pub open spec fn named(v: Viewer, name: Seq<char>, body: Seq<char>) -> Viewer {
    Viewer { names: v.names.insert(name, body), ..v }
}

proof fn lemma_plain_line(v: Viewer, line: Seq<char>, note: Seq<char>, p: nat)
    requires
        v.word.len() == 0,
        is_note(line, note),
    ensures
        leads(v, line, noted(v, note), p),
{
    reveal(is_note);
    reveal(leads);
    lemma_viewed_note(v, note, Language::PostScript, p);
}

/// A line of the text is a comment and the end of the line.
#[verifier::opaque]
pub open spec fn is_note(line: Seq<char>, note: Seq<char>) -> bool {
    &&& line == note.push('\n')
    &&& note.len() > 0
    &&& note[0] == '%'
    &&& forall|i: int| 0 <= i < note.len() ==> #[trigger] note[i] != '\n'
}

proof fn lemma_notes()
    ensures
        is_note("%!PS-Adobe-3.0 EPSF-3.0\n"@, "%!PS-Adobe-3.0 EPSF-3.0"@),
        is_note("%%Creator: Vectify\n"@, "%%Creator: Vectify"@),
        is_note("%%Title: vectify-output\n"@, "%%Title: vectify-output"@),
        is_note("%%LanguageLevel: 2\n"@, "%%LanguageLevel: 2"@),
        is_note("%%EndComments\n"@, "%%EndComments"@),
        is_note("%%BeginProlog\n"@, "%%BeginProlog"@),
        is_note("%%EndProlog\n"@, "%%EndProlog"@),
        is_note("%%EOF\n"@, "%%EOF"@),
{
    reveal(is_note);
    reveal_strlit("%!PS-Adobe-3.0 EPSF-3.0\n");
    reveal_strlit("%!PS-Adobe-3.0 EPSF-3.0");
    assert("%!PS-Adobe-3.0 EPSF-3.0\n"@ =~= "%!PS-Adobe-3.0 EPSF-3.0"@.push('\n'));
    reveal_strlit("%%Creator: Vectify\n");
    reveal_strlit("%%Creator: Vectify");
    assert("%%Creator: Vectify\n"@ =~= "%%Creator: Vectify"@.push('\n'));
    reveal_strlit("%%Title: vectify-output\n");
    reveal_strlit("%%Title: vectify-output");
    assert("%%Title: vectify-output\n"@ =~= "%%Title: vectify-output"@.push('\n'));
    reveal_strlit("%%LanguageLevel: 2\n");
    reveal_strlit("%%LanguageLevel: 2");
    assert("%%LanguageLevel: 2\n"@ =~= "%%LanguageLevel: 2"@.push('\n'));
    reveal_strlit("%%EndComments\n");
    reveal_strlit("%%EndComments");
    assert("%%EndComments\n"@ =~= "%%EndComments"@.push('\n'));
    reveal_strlit("%%BeginProlog\n");
    reveal_strlit("%%BeginProlog");
    assert("%%BeginProlog\n"@ =~= "%%BeginProlog"@.push('\n'));
    reveal_strlit("%%EndProlog\n");
    reveal_strlit("%%EndProlog");
    assert("%%EndProlog\n"@ =~= "%%EndProlog"@.push('\n'));
    reveal_strlit("%%EOF\n");
    reveal_strlit("%%EOF");
    assert("%%EOF\n"@ =~= "%%EOF"@.push('\n'));
}

proof fn lemma_bounding_boxes(v: Viewer, w: int, h: int, width: nat, height: nat, p: nat)
    requires
        v.word.len() == 0,
    ensures
        leads(
            v,
            eps::bounding_box(width, height) + "\n"@,
            noted(v, "%%BoundingBox: 0 0 "@ + decimal(width) + " "@ + decimal(height)),
            p,
        ),
        leads(
            v,
            eps::fine_bounding_box(w, h, p) + "\n"@,
            noted(v, "%%HiResBoundingBox: 0 0 "@ + numeral(w, p) + " "@ + numeral(h, p)),
            p,
        ),
{
    reveal_strlit("%%BoundingBox: 0 0 ");
    reveal_strlit("%%HiResBoundingBox: 0 0 ");
    lemma_numeral_word(width as int, 0);
    lemma_numeral_word(height as int, 0);
    lemma_numeral_word(w, p);
    lemma_numeral_word(h, p);
    lemma_size_line(v, "%%BoundingBox: 0 0 "@, decimal(width), decimal(height), p);
    lemma_size_line(v, "%%HiResBoundingBox: 0 0 "@, numeral(w, p), numeral(h, p), p);
}

proof fn lemma_eps_comments(w: int, h: int, width: nat, height: nat, p: nat)
    ensures
        leads(
            blank(),
            eps::comments(w, h, p, width, height),
            (Viewer { notes: notes_read(w, h, width, height, p), ..blank() }),
            p,
        ),
{
    lemma_notes();
    let v0 = blank();
    let v1 = noted(v0, "%!PS-Adobe-3.0 EPSF-3.0"@);
    let v2 = noted(v1, "%%Creator: Vectify"@);
    let v3 = noted(v2, "%%Title: vectify-output"@);
    let v4 = noted(v3, "%%BoundingBox: 0 0 "@ + decimal(width) + " "@ + decimal(height));
    let v5 = noted(v4, "%%HiResBoundingBox: 0 0 "@ + numeral(w, p) + " "@ + numeral(h, p));
    let v6 = noted(v5, "%%LanguageLevel: 2"@);
    let v7 = noted(v6, "%%EndComments"@);
    let box_line = eps::bounding_box(width, height) + "\n"@;
    let fine_line = eps::fine_bounding_box(w, h, p) + "\n"@;
    let t1 = "%!PS-Adobe-3.0 EPSF-3.0\n"@;
    let t2 = t1 + "%%Creator: Vectify\n"@;
    let t3 = t2 + "%%Title: vectify-output\n"@;
    let t4 = t3 + box_line;
    let t5 = t4 + fine_line;
    let t6 = t5 + "%%LanguageLevel: 2\n"@;
    let t7 = t6 + "%%EndComments\n"@;
    lemma_plain_line(v0, t1, "%!PS-Adobe-3.0 EPSF-3.0"@, p);
    lemma_plain_line(v1, "%%Creator: Vectify\n"@, "%%Creator: Vectify"@, p);
    lemma_leads_on(v0, t1, v1, "%%Creator: Vectify\n"@, v2, p);
    lemma_plain_line(v2, "%%Title: vectify-output\n"@, "%%Title: vectify-output"@, p);
    lemma_leads_on(v0, t2, v2, "%%Title: vectify-output\n"@, v3, p);
    lemma_bounding_boxes(v3, w, h, width, height, p);
    lemma_leads_on(v0, t3, v3, box_line, v4, p);
    lemma_bounding_boxes(v4, w, h, width, height, p);
    lemma_leads_on(v0, t4, v4, fine_line, v5, p);
    lemma_plain_line(v5, "%%LanguageLevel: 2\n"@, "%%LanguageLevel: 2"@, p);
    lemma_leads_on(v0, t5, v5, "%%LanguageLevel: 2\n"@, v6, p);
    lemma_plain_line(v6, "%%EndComments\n"@, "%%EndComments"@, p);
    lemma_leads_on(v0, t6, v6, "%%EndComments\n"@, v7, p);
    assert(t3 + eps::bounding_box(width, height) + "\n"@ =~= t4);
    assert(t4 + eps::fine_bounding_box(w, h, p) + "\n"@ =~= t5);
    assert(eps::comments(w, h, p, width, height) == t7);
    assert(v7.notes =~= notes_read(w, h, width, height, p));
}

proof fn lemma_name_learned(v: Viewer, text: Seq<char>, name: Seq<char>, body: Seq<char>, p: nat)
    requires
        is_idle(v),
        text == definition_text(name, body),
        name.len() > 0,
        body.len() > 0,
        forall|i: int| 0 <= i < name.len() ==> !is_gap(#[trigger] name[i]),
        forall|i: int| 0 <= i < body.len() ==> !is_gap(#[trigger] body[i]),
    ensures
        leads(v, text, named(v, name, body), p),
{
    reveal(leads);
    lemma_definition(v, name, body, p);
}

/// The viewer after the six definitions.
pub open spec fn taught(v: Viewer) -> Viewer {
    let v1 = named(v, seq!['m'], seq!['m', 'o', 'v', 'e', 't', 'o']);
    let v2 = named(v1, seq!['l'], seq!['l', 'i', 'n', 'e', 't', 'o']);
    let v3 = named(v2, seq!['c'], seq!['c', 'u', 'r', 'v', 'e', 't', 'o']);
    let v4 = named(v3, seq!['h'], seq!['c', 'l', 'o', 's', 'e', 'p', 'a', 't', 'h']);
    let v5 = named(v4, seq!['f'], seq!['f', 'i', 'l', 'l']);
    let v6 = named(v5, seq!['r', 'g'], seq!['s', 'e', 't', 'r', 'g', 'b', 'c', 'o', 'l', 'o', 'r']);
    v6
}

proof fn lemma_eps_definitions(v: Viewer, p: nat)
    requires
        is_idle(v),
    ensures
        leads(
            v,
            eps::definitions(),
            noted(noted(taught(v), "%%BeginProlog"@), "%%EndProlog"@),
            p,
        ),
{
    lemma_notes();
    lemma_definition_texts();
    let v1 = named(v, seq!['m'], seq!['m', 'o', 'v', 'e', 't', 'o']);
    let l1 = "/m {moveto} bind def\n"@;
    lemma_name_learned(v, l1, seq!['m'], seq!['m', 'o', 'v', 'e', 't', 'o'], p);
    let t1 = l1;
    let v2 = named(v1, seq!['l'], seq!['l', 'i', 'n', 'e', 't', 'o']);
    let l2 = "/l {lineto} bind def\n"@;
    lemma_name_learned(v1, l2, seq!['l'], seq!['l', 'i', 'n', 'e', 't', 'o'], p);
    let t2 = t1 + l2;
    lemma_leads_on(v, t1, v1, l2, v2, p);
    let v3 = named(v2, seq!['c'], seq!['c', 'u', 'r', 'v', 'e', 't', 'o']);
    let l3 = "/c {curveto} bind def\n"@;
    lemma_name_learned(v2, l3, seq!['c'], seq!['c', 'u', 'r', 'v', 'e', 't', 'o'], p);
    let t3 = t2 + l3;
    lemma_leads_on(v, t2, v2, l3, v3, p);
    let v4 = named(v3, seq!['h'], seq!['c', 'l', 'o', 's', 'e', 'p', 'a', 't', 'h']);
    let l4 = "/h {closepath} bind def\n"@;
    lemma_name_learned(v3, l4, seq!['h'], seq!['c', 'l', 'o', 's', 'e', 'p', 'a', 't', 'h'], p);
    let t4 = t3 + l4;
    lemma_leads_on(v, t3, v3, l4, v4, p);
    let v5 = named(v4, seq!['f'], seq!['f', 'i', 'l', 'l']);
    let l5 = "/f {fill} bind def\n"@;
    lemma_name_learned(v4, l5, seq!['f'], seq!['f', 'i', 'l', 'l'], p);
    let t5 = t4 + l5;
    lemma_leads_on(v, t4, v4, l5, v5, p);
    let v6 = named(v5, seq!['r', 'g'], seq!['s', 'e', 't', 'r', 'g', 'b', 'c', 'o', 'l', 'o', 'r']);
    let l6 = "/rg {setrgbcolor} bind def\n"@;
    lemma_name_learned(v5, l6, seq!['r', 'g'], seq!['s', 'e', 't', 'r', 'g', 'b', 'c', 'o', 'l', 'o', 'r'], p);
    let t6 = t5 + l6;
    lemma_leads_on(v, t5, v5, l6, v6, p);
    let v7 = noted(v6, "%%BeginProlog"@);
    let v8 = noted(v7, "%%EndProlog"@);
    lemma_plain_line(v6, "%%BeginProlog\n"@, "%%BeginProlog"@, p);
    lemma_leads_on(v, t6, v6, "%%BeginProlog\n"@, v7, p);
    let t7 = t6 + "%%BeginProlog\n"@;
    lemma_plain_line(v7, "%%EndProlog\n"@, "%%EndProlog"@, p);
    lemma_leads_on(v, t7, v7, "%%EndProlog\n"@, v8, p);
    assert(eps::definitions() == t7 + "%%EndProlog\n"@);
}

/// The six names are what they stand for, and no longer name was given.
proof fn lemma_taught(v: Viewer)
    requires
        v.names == Map::<Seq<char>, Seq<char>>::empty(),
    ensures
        knows_names(taught(v), Language::PostScript),
        forall|n: Seq<char>| #[trigger] taught(v).names.contains_key(n) ==> n.len() <= 2,
{
    assert(seq!['m'][0] == 'm' && seq!['l'][0] == 'l' && seq!['c'][0] == 'c' && seq!['h'][0] == 'h'
        && seq!['f'][0] == 'f');
    assert(seq!['r', 'g'].len() == 2);
}

proof fn lemma_eps_fill(v: Viewer, f: Fill, p: nat)
    requires
        is_idle(v),
        knows_names(v, Language::PostScript),
        v.path.len() == 0,
        forall|n: Seq<char>| #[trigger] v.names.contains_key(n) ==> n.len() <= 2,
    ensures
        has_painted(
            v,
            viewed(v, eps::fill_text(f, p), Language::PostScript, p),
            fills_painted(seq![f]),
        ),
{
    let lang = Language::PostScript;
    let one = seq![f];
    assert(one.last() == f);
    assert(one.drop_last().len() == 0);
    assert(fills_painted(one.drop_last()) =~= seq![]);
    if f.paths@.len() == 0 {
        assert(v.painted + fills_painted(one) =~= v.painted);
    } else {
        reveal_strlit("\nnewpath\n");
        reveal_strlit("f\n");
        assert("f\n"@ =~= seq!['f'].push('\n'));
        let word = seq!['n', 'e', 'w', 'p', 'a', 't', 'h'];
        let head = rgb_text(f.color).push('\n');
        let fresh = word.push('\n');
        let body = paths_text(f.paths@, p);
        assert(head + fresh =~= rgb_text(f.color) + "\nnewpath\n"@);
        assert(eps::fill_text(f, p) =~= head + fresh + body + "f\n"@);
        lemma_viewed_color(v, f.color, '\n', lang, p);
        let w0 = viewed(v, head, lang, p);
        lemma_viewed_add(v, head, fresh, lang, p);
        assert(word[0] == 'n' && word.len() == 7);
        lemma_viewed_word(w0, word, '\n', lang, p);
        lemma_operator_names();
        assert(followed(w0, word, lang, p) == performed(w0, Does::NewPath, p));
        assert(v.path =~= seq![]);
        assert(v.operands =~= seq![]);
        assert(viewed(v, head + fresh, lang, p) == w0);
        lemma_viewed_add(v, head + fresh, body, lang, p);
        lemma_viewed_paths(w0, f.paths@, lang, p);
        let w2 = viewed(v, head + fresh + body, lang, p);
        lemma_viewed_add(v, head + fresh + body, "f\n"@, lang, p);
        lemma_viewed_word(w2, seq!['f'], '\n', lang, p);
        lemma_short_names(w2, lang, p);
        assert(v.path + paths_drawn(f.paths@) =~= paths_drawn(f.paths@));
        let painted = Painted { color: shade(f.color), path: paths_drawn(f.paths@) };
        assert(v.painted.push(painted) =~= v.painted + fills_painted(one));
    }
}

proof fn lemma_eps_fills(v: Viewer, fills: Seq<Fill>, p: nat)
    requires
        is_idle(v),
        knows_names(v, Language::PostScript),
        v.path.len() == 0,
        forall|n: Seq<char>| #[trigger] v.names.contains_key(n) ==> n.len() <= 2,
    ensures
        has_painted(
            v,
            viewed(v, eps::fills_text(fills, p), Language::PostScript, p),
            fills_painted(fills),
        ),
    decreases fills.len(),
{
    let lang = Language::PostScript;
    if fills.len() == 0 {
        assert(v.painted + fills_painted(fills) =~= v.painted);
    } else {
        let rest = fills.drop_last();
        lemma_eps_fills(v, rest, p);
        let w = viewed(v, eps::fills_text(rest, p), lang, p);
        lemma_viewed_add(v, eps::fills_text(rest, p), eps::fill_text(fills.last(), p), lang, p);
        lemma_eps_fill(w, fills.last(), p);
        lemma_fills_painted_add(fills);
        assert((v.painted + fills_painted(rest)) + fills_painted(seq![fills.last()]) =~= v.painted
            + fills_painted(fills));
    }
}

proof fn lemma_eps_rectangle(v: Viewer, x: int, y: int, p: nat)
    requires
        is_idle(v),
        forall|n: Seq<char>| #[trigger] v.names.contains_key(n) ==> n.len() <= 2,
    ensures
        viewed(
            v,
            rect_text(x, y, p) + seq!['r', 'e', 'c', 't', 'f', 'i', 'l', 'l'].push('\n'),
            Language::PostScript,
            p,
        ) == (Viewer {
            painted: v.painted.push(
                Painted { color: v.color, path: seq![Drawn::Rect(0, 0, x, y)] },
            ),
            ..v
        }),
{
    let lang = Language::PostScript;
    let word = seq!['r', 'e', 'c', 't', 'f', 'i', 'l', 'l'];
    let rect = rect_text(x, y, p);
    lemma_viewed_rect(v, x, y, lang, p);
    let w = viewed(v, rect, lang, p);
    lemma_viewed_add(v, rect, word.push('\n'), lang, p);
    assert(word[0] == 'r' && word.len() == 8);
    lemma_viewed_word(w, word, '\n', lang, p);
    assert(followed(w, word, lang, p) == performed(w, Does::FillRectangle, p)) by {
        lemma_operator_names();
    }
    law_numbers_read_back(0, p);
    law_numbers_read_back(x, p);
    law_numbers_read_back(y, p);
    lemma_cleared(v, w);
}

proof fn lemma_eps_backdrop(v: Viewer, bg: Option<Rgba8>, x: int, y: int, p: nat)
    requires
        is_idle(v),
        knows_names(v, Language::PostScript),
        v.path.len() == 0,
        forall|n: Seq<char>| #[trigger] v.names.contains_key(n) ==> n.len() <= 2,
    ensures
        has_painted(
            v,
            viewed(v, eps::backdrop(bg, x, y, p), Language::PostScript, p),
            backdrop_painted(bg, x, y),
        ),
{
    let lang = Language::PostScript;
    match bg {
        None => {
            assert(v.painted + backdrop_painted(bg, x, y) =~= v.painted);
        },
        Some(c) => {
            let head = rgb_text(c).push(' ');
            let tail = rect_text(x, y, p) + seq!['r', 'e', 'c', 't', 'f', 'i', 'l', 'l'].push('\n');
            lemma_eps_backdrop_text(c, x, y, p);
            assert(eps::backdrop(bg, x, y, p) =~= head + tail);
            lemma_viewed_color(v, c, ' ', lang, p);
            let w = viewed(v, head, lang, p);
            lemma_viewed_add(v, head, tail, lang, p);
            lemma_eps_rectangle(w, x, y, p);
            let painted = Painted { color: shade(c), path: seq![Drawn::Rect(0, 0, x, y)] };
            assert(v.painted.push(painted) =~= v.painted + backdrop_painted(bg, x, y));
        },
    }
}

proof fn lemma_eps_backdrop_text(c: Rgba8, x: int, y: int, p: nat)
    ensures
        eps::backdrop(Some(c), x, y, p) == rgb_text(c).push(' ') + rect_text(x, y, p) + seq![
            'r',
            'e',
            'c',
            't',
            'f',
            'i',
            'l',
            'l',
        ].push('\n'),
{
    reveal_strlit(" 0 0 ");
    reveal_strlit(" ");
    reveal_strlit(" rectfill\n");
    lemma_zero(p);
    let all = rgb_text(c).push(' ') + rect_text(x, y, p) + seq![
        'r',
        'e',
        'c',
        't',
        'f',
        'i',
        'l',
        'l',
    ].push('\n');
    assert(eps::backdrop(Some(c), x, y, p) =~= all);
}

/// The page is shown.
proof fn lemma_eps_end(v: Viewer, p: nat)
    requires
        is_idle(v),
        forall|n: Seq<char>| #[trigger] v.names.contains_key(n) ==> n.len() <= 2,
    ensures
        leads(v, "showpage\n"@, (Viewer { shown: v.shown + 1, ..v }), p),
{
    reveal(leads);
    let lang = Language::PostScript;
    let word = seq!['s', 'h', 'o', 'w', 'p', 'a', 'g', 'e'];
    reveal_strlit("showpage\n");
    assert("showpage\n"@ =~= word.push('\n'));
    assert(word[0] == 's' && word.len() == 8);
    lemma_viewed_word(v, word, '\n', lang, p);
    lemma_operator_names();
    assert(followed(v, word, lang, p) == performed(v, Does::ShowPage, p));
    assert(v.operands =~= seq![]);
}

/// A viewer that reads an EPS file paints the page as it does a PDF page, and shows it
/// once. The comments at the top give the kind of the file and the size of the page.
pub proof fn law_eps_paints_the_page(page: Artwork, width: nat, height: nat, p: nat)
    ensures
        ({
            let text = eps::document(page, width, height, p);
            let v = viewed(blank(), text, Language::PostScript, p);
            &&& v.painted == page_painted(page)
            &&& v.shown == 1
            &&& v.sound
            &&& v.word.len() == 0
            &&& v.operands.len() == 0
            &&& v.path.len() == 0
            &&& v.notes == notes_read(page.width as int, page.height as int, width, height, p)
                + seq!["%%BeginProlog"@, "%%EndProlog"@, "%%EOF"@]
        }),
{
    let lang = Language::PostScript;
    let x = page.width as int;
    let y = page.height as int;
    let top = eps::comments(x, y, p, width, height);
    let names = eps::definitions();
    let back = eps::backdrop(page.background, x, y, p);
    let fills = eps::fills_text(page.fills@, p);
    let notes = notes_read(x, y, width, height, p);
    let v0 = Viewer { notes, ..blank() };
    lemma_eps_comments(x, y, width, height, p);
    lemma_eps_definitions(v0, p);
    let v1 = noted(noted(taught(v0), "%%BeginProlog"@), "%%EndProlog"@);
    lemma_leads_on(blank(), top, v0, names, v1, p);
    lemma_taught(v0);
    lemma_eps_backdrop(v1, page.background, x, y, p);
    let v2 = viewed(v1, back, lang, p);
    lemma_eps_fills(v2, page.fills@, p);
    let v3 = viewed(v2, fills, lang, p);
    lemma_eps_end(v3, p);
    let v4 = Viewer { shown: v3.shown + 1, ..v3 };
    let v5 = noted(v4, "%%EOF"@);
    lemma_notes();
    lemma_plain_line(v4, "%%EOF\n"@, "%%EOF"@, p);
    assert(leads(v1, back, v2, p) && leads(v2, fills, v3, p)) by {
        reveal(leads);
    }
    lemma_leads_on(blank(), top + names, v1, back, v2, p);
    lemma_leads_on(blank(), top + names + back, v2, fills, v3, p);
    lemma_leads_on(blank(), top + names + back + fills, v3, "showpage\n"@, v4, p);
    lemma_leads_on(
        blank(),
        top + names + back + fills + "showpage\n"@,
        v4,
        "%%EOF\n"@,
        v5,
        p,
    );
    assert(viewed(blank(), eps::document(page, width, height, p), lang, p) == v5) by {
        reveal(leads);
    }
    assert((blank().painted + backdrop_painted(page.background, x, y)) + fills_painted(page.fills@)
        =~= page_painted(page));
    assert(v5.notes =~= notes + seq!["%%BeginProlog"@, "%%EndProlog"@, "%%EOF"@]);
}

} // verus!
