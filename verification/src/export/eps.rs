//! Encapsulated PostScript writer.
//!
//! PostScript has no arc-through-two-points operator matching SVG's, so arcs
//! are lowered to cubics. Fills use the nonzero winding rule, which matches how
//! outer rings are oriented against holes.

use crate::export::{
    numeral, paths_text, push_num, push_paths, push_rgb, rgb_text, Artwork, Fill,
};
use crate::text::{decimal, push_decimal, push_text};
use crate::color::Rgba8;
use vstd::prelude::*;

verus! {

/// The comments at the top. `width` and `height` are whole page units, rounded up.
pub open spec fn comments(w: int, h: int, p: nat, width: nat, height: nat) -> Seq<char> {
    "%!PS-Adobe-3.0 EPSF-3.0\n"@ + "%%Creator: Vectify\n"@ + "%%Title: vectify-output\n"@
        + bounding_box(width, height) + "\n"@ + fine_bounding_box(w, h, p) + "\n"@
        + "%%LanguageLevel: 2\n"@ + "%%EndComments\n"@
}

/// The size of the page in whole units.
pub open spec fn bounding_box(width: nat, height: nat) -> Seq<char> {
    "%%BoundingBox: 0 0 "@ + decimal(width) + " "@ + decimal(height)
}

/// The size of the page.
pub open spec fn fine_bounding_box(w: int, h: int, p: nat) -> Seq<char> {
    "%%HiResBoundingBox: 0 0 "@ + numeral(w, p) + " "@ + numeral(h, p)
}

/// Short names for the operators.
pub open spec fn definitions() -> Seq<char> {
    "/m {moveto} bind def\n"@ + "/l {lineto} bind def\n"@ + "/c {curveto} bind def\n"@
        + "/h {closepath} bind def\n"@ + "/f {fill} bind def\n"@
        + "/rg {setrgbcolor} bind def\n"@ + "%%BeginProlog\n"@ + "%%EndProlog\n"@
}

/// Everything above the shapes.
pub open spec fn header(w: int, h: int, p: nat, width: nat, height: nat) -> Seq<char> {
    comments(w, h, p, width, height) + definitions()
}

/// The backdrop rectangle.
pub open spec fn backdrop(bg: Option<Rgba8>, w: int, h: int, p: nat) -> Seq<char> {
    match bg {
        Some(c) => rgb_text(c) + " 0 0 "@ + numeral(w, p) + " "@ + numeral(h, p) + " rectfill\n"@,
        None => seq![],
    }
}

/// One shape; a shape without subpaths leaves no trace.
pub open spec fn fill_text(f: Fill, p: nat) -> Seq<char> {
    if f.paths@.len() == 0 {
        seq![]
    } else {
        rgb_text(f.color) + "\nnewpath\n"@ + paths_text(f.paths@, p) + "f\n"@
    }
}

pub open spec fn fills_text(fills: Seq<Fill>, p: nat) -> Seq<char>
    decreases fills.len(),
{
    if fills.len() == 0 {
        seq![]
    } else {
        fills_text(fills.drop_last(), p) + fill_text(fills.last(), p)
    }
}

/// The whole file.
pub open spec fn document(page: Artwork, width: nat, height: nat, p: nat) -> Seq<char> {
    header(page.width as int, page.height as int, p, width, height) + backdrop(
        page.background,
        page.width as int,
        page.height as int,
        p,
    ) + fills_text(page.fills@, p) + "showpage\n"@ + "%%EOF\n"@
}

/// Write `page` as EPS. `width` and `height` are the page size in whole units,
/// rounded up, for the integer bounding box.
pub fn write(page: &Artwork, width: u64, height: u64, precision: u32) -> (s: String)
    ensures
        s@ == document(*page, width as nat, height as nat, precision as nat),
{
    let ghost p = precision as nat;
    let mut s: String = String::new();
    push_text(&mut s, "%!PS-Adobe-3.0 EPSF-3.0\n");
    push_text(&mut s, "%%Creator: Vectify\n");
    push_text(&mut s, "%%Title: vectify-output\n");
    push_text(&mut s, "%%BoundingBox: 0 0 ");
    push_decimal(&mut s, width);
    push_text(&mut s, " ");
    push_decimal(&mut s, height);
    push_text(&mut s, "\n");
    push_text(&mut s, "%%HiResBoundingBox: 0 0 ");
    push_num(&mut s, page.width as i128, precision);
    push_text(&mut s, " ");
    push_num(&mut s, page.height as i128, precision);
    push_text(&mut s, "\n");
    push_text(&mut s, "%%LanguageLevel: 2\n");
    push_text(&mut s, "%%EndComments\n");
    assert(s@ =~= comments(
        page.width as int,
        page.height as int,
        p,
        width as nat,
        height as nat,
    ));
    let ghost top = s@;
    // Short aliases keep the file substantially smaller on shape-heavy output.
    push_text(&mut s, "/m {moveto} bind def\n");
    push_text(&mut s, "/l {lineto} bind def\n");
    push_text(&mut s, "/c {curveto} bind def\n");
    push_text(&mut s, "/h {closepath} bind def\n");
    push_text(&mut s, "/f {fill} bind def\n");
    push_text(&mut s, "/rg {setrgbcolor} bind def\n");
    push_text(&mut s, "%%BeginProlog\n");
    push_text(&mut s, "%%EndProlog\n");
    assert(s@ =~= top + definitions());
    let ghost head = header(page.width as int, page.height as int, p, width as nat, height as nat);
    assert(s@ =~= head);
    let ghost back = backdrop(page.background, page.width as int, page.height as int, p);
    if let Some(bg) = page.background {
        push_rgb(&mut s, bg);
        push_text(&mut s, " 0 0 ");
        push_num(&mut s, page.width as i128, precision);
        push_text(&mut s, " ");
        push_num(&mut s, page.height as i128, precision);
        push_text(&mut s, " rectfill\n");
    }
    assert(s@ =~= head + back);
    let mut i: usize = 0;
    assert(s@ =~= head + back + fills_text(page.fills@.take(0), p));
    while i < page.fills.len()
        invariant
            i <= page.fills@.len(),
            p == precision as nat,
            s@ == head + back + fills_text(page.fills@.take(i as int), p),
        decreases page.fills@.len() - i,
    {
        let f: &Fill = &page.fills[i];
        let ghost before = s@;
        if f.paths.len() > 0 {
            push_rgb(&mut s, f.color);
            push_text(&mut s, "\nnewpath\n");
            push_paths(&mut s, &f.paths, precision);
            push_text(&mut s, "f\n");
        }
        proof {
            assert(s@ =~= before + fill_text(*f, p));
            let next = page.fills@.take(i + 1);
            assert(next.drop_last() =~= page.fills@.take(i as int));
            assert(s@ =~= head + back + fills_text(next, p));
        }
        i = i + 1;
    }
    assert(page.fills@.take(i as int) =~= page.fills@);
    push_text(&mut s, "showpage\n");
    push_text(&mut s, "%%EOF\n");
    s
}

} // verus!
