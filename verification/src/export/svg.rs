//! SVG writer.
//!
//! Colours are written as `#rrggbb`, and an alpha below full as a separate
//! opacity, so that the file stays readable in editors that dislike 8-digit
//! hex. Fills use the nonzero winding rule, which matches how outer rings are
//! oriented against holes.

use crate::color::{hex_form, Rgba8};
use crate::export::{numeral, push_num, Point};
use crate::model::{Shape, VectorImage};
use crate::path::{Seg, SubPath};
use crate::text::push_text;
use vstd::prelude::*;

verus! {

/// An alpha in steps of 1/10000.
pub open spec fn opacity(a: u8) -> int {
    (20000 * a + 255) / 510
}

/// The fill of an element.
pub open spec fn paint(c: Rgba8) -> Seq<char> {
    "fill=\""@ + hex_form(c) + "\""@ + if c.a == 255 {
        ""@
    } else {
        " fill-opacity=\""@ + numeral(opacity(c.a), 4) + "\""@
    }
}

/// Two coordinates.
pub open spec fn coords(q: Point, p: nat) -> Seq<char> {
    numeral(q.x as int, p) + " "@ + numeral(q.y as int, p)
}

pub open spec fn flag(b: bool) -> Seq<char> {
    if b {
        "1"@
    } else {
        "0"@
    }
}

/// One drawing command.
pub open spec fn seg_text(s: Seg<Point, i64>, p: nat) -> Seq<char> {
    match s {
        Seg::Line { to } => "L"@ + coords(to, p),
        Seg::Cubic { c1, c2, to } => "C"@ + coords(c1, p) + " "@ + coords(c2, p) + " "@ + coords(
            to,
            p,
        ),
        Seg::Arc { r, large, sweep, to } => "A"@ + numeral(r as int, p) + " "@ + numeral(
            r as int,
            p,
        ) + " 0 "@ + flag(large) + " "@ + flag(sweep) + " "@ + coords(to, p),
    }
}

pub open spec fn segs_text(segs: Seq<Seg<Point, i64>>, p: nat) -> Seq<char>
    decreases segs.len(),
{
    if segs.len() == 0 {
        seq![]
    } else {
        segs_text(segs.drop_last(), p) + seg_text(segs.last(), p)
    }
}

/// One subpath of a path's data.
pub open spec fn path_text(sp: SubPath<Point, i64>, p: nat) -> Seq<char> {
    "M"@ + coords(sp.start, p) + segs_text(sp.segs@, p) + if sp.closed {
        "Z"@
    } else {
        ""@
    }
}

pub open spec fn paths_text(list: Seq<SubPath<Point, i64>>, p: nat) -> Seq<char>
    decreases list.len(),
{
    if list.len() == 0 {
        seq![]
    } else {
        paths_text(list.drop_last(), p) + path_text(list.last(), p)
    }
}

/// One shape; a shape without subpaths leaves no trace.
pub open spec fn shape_text(s: Shape<Point, i64>, p: nat) -> Seq<char> {
    if s.subpaths@.len() == 0 {
        seq![]
    } else {
        "<path "@ + paint(s.color) + " d=\""@ + paths_text(s.subpaths@, p) + "\"/>\n"@
    }
}

pub open spec fn shapes_text(list: Seq<Shape<Point, i64>>, p: nat) -> Seq<char>
    decreases list.len(),
{
    if list.len() == 0 {
        seq![]
    } else {
        shapes_text(list.drop_last(), p) + shape_text(list.last(), p)
    }
}

/// What stands above the size of the drawing.
pub open spec fn declaration() -> Seq<char> {
    "<?xml version=\""@ + "1.0"@ + "\" encoding=\""@ + "UTF-8"@ + "\"?>\n<svg xmlns=\""@
        + "http://www.w3.org/2000/svg"@ + "\" width=\""@
}

/// The opening tag.
pub open spec fn opening(w: int, h: int, p: nat) -> Seq<char> {
    declaration() + numeral(w, p) + "\" height=\""@ + numeral(h, p) + "\" viewBox=\"0 0 "@ + numeral(w, p)
        + " "@ + numeral(h, p) + "\">\n"@
}

/// The backdrop rectangle.
pub open spec fn backdrop(bg: Option<Rgba8>, w: int, h: int, p: nat) -> Seq<char> {
    match bg {
        Some(c) => "<rect width=\""@ + numeral(w, p) + "\" height=\""@ + numeral(h, p) + "\" "@
            + paint(c) + "/>\n"@,
        None => seq![],
    }
}

/// The whole file.
pub open spec fn document(image: VectorImage<Point, i64>, p: nat) -> Seq<char> {
    opening(image.width as int, image.height as int, p) + backdrop(
        image.background,
        image.width as int,
        image.height as int,
        p,
    ) + shapes_text(image.shapes@, p) + "</svg>\n"@
}

fn push_paint(s: &mut String, c: Rgba8)
    ensures
        final(s)@ == old(s)@ + paint(c),
{
    let ghost s0 = s@;
    push_text(s, "fill=\"");
    let name: String = c.to_hex();
    push_text(s, name.as_str());
    push_text(s, "\"");
    if c.a != 255 {
        push_text(s, " fill-opacity=\"");
        push_num(s, (20000 * c.a as i128 + 255) / 510, 4);
        push_text(s, "\"");
    } else {
        push_text(s, "");
    }
    assert(s@ =~= s0 + paint(c));
}

fn push_coords(s: &mut String, q: Point, precision: u32)
    ensures
        final(s)@ == old(s)@ + coords(q, precision as nat),
{
    let ghost s0 = s@;
    push_num(s, q.x as i128, precision);
    push_text(s, " ");
    push_num(s, q.y as i128, precision);
    assert(s@ =~= s0 + coords(q, precision as nat));
}

fn push_flag(s: &mut String, b: bool)
    ensures
        final(s)@ == old(s)@ + flag(b),
{
    push_text(
        s,
        if b {
            "1"
        } else {
            "0"
        },
    );
}

#[verifier::rlimit(60)]
#[verifier::spinoff_prover]
fn push_seg(s: &mut String, seg: &Seg<Point, i64>, precision: u32)
    ensures
        final(s)@ == old(s)@ + seg_text(*seg, precision as nat),
{
    let ghost s0 = s@;
    match *seg {
        Seg::Line { to } => {
            push_text(s, "L");
            push_coords(s, to, precision);
        },
        Seg::Cubic { c1, c2, to } => {
            push_text(s, "C");
            push_coords(s, c1, precision);
            push_text(s, " ");
            push_coords(s, c2, precision);
            push_text(s, " ");
            push_coords(s, to, precision);
        },
        Seg::Arc { r, large, sweep, to } => {
            push_text(s, "A");
            push_num(s, r as i128, precision);
            push_text(s, " ");
            push_num(s, r as i128, precision);
            push_text(s, " 0 ");
            push_flag(s, large);
            push_text(s, " ");
            push_flag(s, sweep);
            push_text(s, " ");
            push_coords(s, to, precision);
        },
    }
    assert(s@ =~= s0 + seg_text(*seg, precision as nat));
}

fn push_path(s: &mut String, sp: &SubPath<Point, i64>, precision: u32)
    ensures
        final(s)@ == old(s)@ + path_text(*sp, precision as nat),
{
    let ghost s0 = s@;
    let ghost p = precision as nat;
    push_text(s, "M");
    push_coords(s, sp.start, precision);
    let ghost head = s0 + ("M"@ + coords(sp.start, p));
    let mut i: usize = 0;
    assert(s@ =~= head + segs_text(sp.segs@.take(0), p));
    while i < sp.segs.len()
        invariant
            i <= sp.segs@.len(),
            p == precision as nat,
            s@ == head + segs_text(sp.segs@.take(i as int), p),
        decreases sp.segs@.len() - i,
    {
        push_seg(s, &sp.segs[i], precision);
        proof {
            let next = sp.segs@.take(i + 1);
            assert(next.drop_last() =~= sp.segs@.take(i as int));
            assert(s@ =~= head + segs_text(next, p));
        }
        i = i + 1;
    }
    assert(sp.segs@.take(i as int) =~= sp.segs@);
    push_text(
        s,
        if sp.closed {
            "Z"
        } else {
            ""
        },
    );
    assert(s@ =~= s0 + path_text(*sp, p));
}

fn push_shape(s: &mut String, shape: &Shape<Point, i64>, precision: u32)
    ensures
        final(s)@ == old(s)@ + shape_text(*shape, precision as nat),
{
    let ghost s0 = s@;
    let ghost p = precision as nat;
    if shape.subpaths.len() > 0 {
        push_text(s, "<path ");
        push_paint(s, shape.color);
        push_text(s, " d=\"");
        let ghost head = s@;
        let mut i: usize = 0;
        assert(s@ =~= head + paths_text(shape.subpaths@.take(0), p));
        while i < shape.subpaths.len()
            invariant
                i <= shape.subpaths@.len(),
                p == precision as nat,
                s@ == head + paths_text(shape.subpaths@.take(i as int), p),
            decreases shape.subpaths@.len() - i,
        {
            push_path(s, &shape.subpaths[i], precision);
            proof {
                let next = shape.subpaths@.take(i + 1);
                assert(next.drop_last() =~= shape.subpaths@.take(i as int));
                assert(s@ =~= head + paths_text(next, p));
            }
            i = i + 1;
        }
        assert(shape.subpaths@.take(i as int) =~= shape.subpaths@);
        push_text(s, "\"/>\n");
    }
    assert(s@ =~= s0 + shape_text(*shape, p));
}

/// Write `image` as SVG.
pub fn write(image: &VectorImage<Point, i64>, precision: u32) -> (s: String)
    ensures
        s@ == document(*image, precision as nat),
{
    let ghost p = precision as nat;
    let w: i128 = image.width as i128;
    let h: i128 = image.height as i128;
    let mut s: String = String::new();
    push_text(&mut s, "<?xml version=\"");
    push_text(&mut s, "1.0");
    push_text(&mut s, "\" encoding=\"");
    push_text(&mut s, "UTF-8");
    push_text(&mut s, "\"?>\n<svg xmlns=\"");
    push_text(&mut s, "http://www.w3.org/2000/svg");
    push_text(&mut s, "\" width=\"");
    assert(s@ =~= declaration());
    push_num(&mut s, w, precision);
    push_text(&mut s, "\" height=\"");
    push_num(&mut s, h, precision);
    push_text(&mut s, "\" viewBox=\"0 0 ");
    push_num(&mut s, w, precision);
    push_text(&mut s, " ");
    push_num(&mut s, h, precision);
    push_text(&mut s, "\">\n");
    let ghost head = opening(w as int, h as int, p);
    assert(s@ =~= head);
    let ghost back = backdrop(image.background, w as int, h as int, p);
    if let Some(bg) = image.background {
        push_text(&mut s, "<rect width=\"");
        push_num(&mut s, w, precision);
        push_text(&mut s, "\" height=\"");
        push_num(&mut s, h, precision);
        push_text(&mut s, "\" ");
        push_paint(&mut s, bg);
        push_text(&mut s, "/>\n");
    }
    assert(s@ =~= head + back);
    let mut i: usize = 0;
    assert(s@ =~= head + back + shapes_text(image.shapes@.take(0), p));
    while i < image.shapes.len()
        invariant
            i <= image.shapes@.len(),
            p == precision as nat,
            s@ == head + back + shapes_text(image.shapes@.take(i as int), p),
        decreases image.shapes@.len() - i,
    {
        push_shape(&mut s, &image.shapes[i], precision);
        proof {
            let next = image.shapes@.take(i + 1);
            assert(next.drop_last() =~= image.shapes@.take(i as int));
            assert(s@ =~= head + back + shapes_text(next, p));
        }
        i = i + 1;
    }
    assert(image.shapes@.take(i as int) =~= image.shapes@);
    push_text(&mut s, "</svg>\n");
    s
}

} // verus!
