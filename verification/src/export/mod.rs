//! Vector format writers.
//!
//! All writers consume the same document, which has already been scaled and
//! whose coordinates are whole numbers of the last decimal place: a border
//! shared by two shapes serialises to byte-identical numbers on both sides,
//! whichever format is being written.

use crate::color::Rgba8;
use crate::config::VectorFormat;
use crate::export::dxf::Cut;
use crate::model::{Shape, VectorImage};
use crate::path::{PathView, Seg, SubPath};
use crate::text::{
    decimal, digit, dropped, last_digits, lemma_decimal_digits, lemma_last_digits_digits,
    lemma_last_digits_len, push_bytes, push_last_digits, push_natural, push_text,
};
use vstd::prelude::*;
use vstd::utf8::encode_utf8;

pub mod browsing;
pub mod cutting;
pub mod dxf;
pub mod eps;
pub mod pdf;
pub mod reading;
pub mod svg;

verus! {

// ---- Numbers ------------------------------------------------------------

/// `m` units of the `p`-th decimal place in decimal notation, without trailing
/// zeros.
pub open spec fn magnitude(m: nat, p: nat) -> Seq<char>
    decreases p,
{
    if p == 0 {
        decimal(m)
    } else if m % 10 == 0 {
        magnitude(m / 10, (p - 1) as nat)
    } else {
        decimal(dropped(m, p)) + seq!['.'] + last_digits(m, p)
    }
}

/// `v` units of the `p`-th decimal place in decimal notation.
pub open spec fn numeral(v: int, p: nat) -> Seq<char> {
    if v < 0 {
        seq!['-'] + magnitude((-v) as nat, p)
    } else {
        magnitude(v as nat, p)
    }
}

/// `n` without its last `k` digits.
fn without_last(n: u128, k: u32) -> (r: u128)
    ensures
        r == dropped(n as nat, k as nat),
{
    let mut rest: u128 = n;
    let mut i: u32 = 0;
    while i < k
        invariant
            i <= k,
            dropped(n as nat, k as nat) == dropped(rest as nat, (k - i) as nat),
        decreases k - i,
    {
        rest = rest / 10;
        i = i + 1;
    }
    rest
}

/// Append a number compactly: fixed precision with trailing zeros stripped, and
/// no negative zero. The number is `v` units of decimal place `precision`.
pub fn push_num(s: &mut String, v: i128, precision: u32)
    ensures
        final(s)@ == old(s)@ + numeral(v as int, precision as nat),
{
    let ghost s0 = s@;
    let mut m: u128 = if v < 0 {
        s.push('-');
        (-(v + 1)) as u128 + 1
    } else {
        v as u128
    };
    let ghost sign = if v < 0 {
        seq!['-']
    } else {
        seq![]
    };
    assert(s@ =~= s0 + sign);
    let ghost whole = m as nat;
    let mut p: u32 = precision;
    while p > 0 && m % 10 == 0
        invariant
            magnitude(m as nat, p as nat) == magnitude(whole, precision as nat),
        decreases p,
    {
        m = m / 10;
        p = p - 1;
    }
    if p == 0 {
        push_natural(s, m);
    } else {
        push_natural(s, without_last(m, p));
        s.push('.');
        push_last_digits(s, m, p);
        assert(s@ =~= s0 + sign + magnitude(m as nat, p as nat));
    }
    assert(s@ =~= s0 + numeral(v as int, precision as nat));
}

/// Format a number compactly: fixed precision with trailing zeros stripped, and
/// no negative zero. The number is `v` units of decimal place `precision`.
pub fn num(v: i128, precision: u32) -> (s: String)
    ensures
        s@ == numeral(v as int, precision as nat),
{
    let mut s: String = String::new();
    push_num(&mut s, v, precision);
    assert(s@ =~= numeral(v as int, precision as nat));
    s
}

proof fn lemma_magnitude_compact(m: nat, p: nat)
    ensures
        magnitude(m, p).len() > 0,
        magnitude(m, p).contains('.') ==> '1' <= magnitude(m, p).last() <= '9',
        '0' <= magnitude(m, p)[0] <= '9',
        m == 0 ==> magnitude(m, p) == seq!['0'],
    decreases p,
{
    if p == 0 {
        lemma_decimal_digits(m);
    } else if m % 10 == 0 {
        lemma_magnitude_compact(m / 10, (p - 1) as nat);
    } else {
        lemma_decimal_digits(dropped(m, p));
        lemma_last_digits_len(m, p);
        assert(last_digits(m, p).last() == digit((m % 10) as int));
        assert(magnitude(m, p).last() == last_digits(m, p).last());
    }
}

/// A number is made of digits and at most a point.
pub proof fn lemma_magnitude_characters(m: nat, p: nat)
    ensures
        forall|i: int|
            0 <= i < magnitude(m, p).len() ==> (#[trigger] magnitude(m, p)[i] == '.' || '0'
                <= magnitude(m, p)[i] <= '9'),
    decreases p,
{
    let text = magnitude(m, p);
    if p == 0 {
        lemma_decimal_digits(m);
        assert(text == decimal(m));
    } else if m % 10 == 0 {
        lemma_magnitude_characters(m / 10, (p - 1) as nat);
        assert(text == magnitude(m / 10, (p - 1) as nat));
    } else {
        let whole = decimal(dropped(m, p));
        let fraction = last_digits(m, p);
        lemma_decimal_digits(dropped(m, p));
        lemma_last_digits_digits(m, p);
        assert(text == whole + seq!['.'] + fraction);
        assert forall|i: int| 0 <= i < text.len() implies (#[trigger] text[i] == '.' || '0'
            <= text[i] <= '9') by {
            if i < whole.len() {
                assert(text[i] == whole[i]);
            } else if i > whole.len() {
                assert(text[i] == fraction[i - whole.len() - 1]);
            }
        }
    }
}

/// Numbers are compact: a fraction never ends in a zero or in its point, zero
/// is always written `0`, and only numbers below zero carry a sign.
pub proof fn law_numbers_are_compact(v: int, p: nat)
    ensures
        numeral(v, p).len() > 0,
        numeral(v, p).contains('.') ==> numeral(v, p).last() != '0' && numeral(v, p).last() != '.',
        numeral(0, p) == seq!['0'],
        v < 0 <==> numeral(v, p)[0] == '-',
{
    lemma_magnitude_compact(0, p);
    if v < 0 {
        let m = magnitude((-v) as nat, p);
        lemma_magnitude_compact((-v) as nat, p);
        let n = numeral(v, p);
        if n.contains('.') {
            let i = choose|i: int| 0 <= i < n.len() && n[i] == '.';
            assert(m[i - 1] == '.');
            assert(m.contains('.'));
            assert(n.last() == m.last());
        }
    } else {
        lemma_magnitude_compact(v as nat, p);
    }
}

// ---- Colours ------------------------------------------------------------

/// A channel of a colour flattened onto white, in steps of 1/10000: `v / 255`
/// weighted by the opacity plus white weighted by what is left, rounded to the
/// nearest step.
pub open spec fn flattened(v: u8, a: u8) -> int {
    (20000 * (v * a + 255 * (255 - a)) + 65025) / 130050
}

fn flatten_channel(v: u8, a: u8) -> (n: i128)
    ensures
        n == flattened(v, a),
        0 <= n <= 10000,
{
    assert(0 <= v * a <= 255 * a) by (nonlinear_arith)
        requires
            0 <= v <= 255,
            0 <= a,
    ;
    let mixed: u64 = v as u64 * a as u64 + 255 * (255 - a as u64);
    ((20000 * mixed + 65025) / 130050) as i128
}

/// Flatten a colour onto white, in steps of 1/10000 per channel. Fills in these
/// writers are opaque, so a translucent colour is composited rather than
/// silently losing its alpha.
pub fn over_white(c: Rgba8) -> (rgb: [i128; 3])
    ensures
        rgb@[0] == flattened(c.r, c.a),
        rgb@[1] == flattened(c.g, c.a),
        rgb@[2] == flattened(c.b, c.a),
        forall|i: int| 0 <= i < 3 ==> 0 <= #[trigger] rgb@[i] <= 10000,
{
    [flatten_channel(c.r, c.a), flatten_channel(c.g, c.a), flatten_channel(c.b, c.a)]
}

/// An opaque colour is kept, and a fully transparent one becomes white.
pub proof fn law_flattening_ends(v: u8)
    ensures
        flattened(v, 255) == (20000 * (v * 255) + 65025) / 130050,
        flattened(255, 255) == 10000,
        flattened(0, 255) == 0,
        flattened(v, 0) == 10000,
{
}

/// A channel is the colour over white, to the nearest step of 1/10000.
pub proof fn law_flattening_is_the_nearest_step(v: u8, a: u8)
    ensures
        -65025 <= 2 * (65025 * flattened(v, a) - 10000 * (v * a + 255 * (255 - a))) <= 65025,
{
}

/// A brighter channel is never flattened to a darker one, nor a more opaque one to a
/// brighter one.
pub proof fn law_flattening_keeps_order(v: u8, w: u8, a: u8, b: u8)
    requires
        v <= w,
        a <= b,
    ensures
        flattened(v, a) <= flattened(w, a),
        flattened(v, b) <= flattened(v, a),
{
    assert(v * a <= w * a) by (nonlinear_arith)
        requires
            v <= w,
            0 <= a,
    ;
    assert(v * b - v * a <= 255 * (b - a)) by (nonlinear_arith)
        requires
            v <= 255,
            a <= b,
    ;
}

/// A colour as the three channel numbers of a fill.
pub open spec fn rgb_text(c: Rgba8) -> Seq<char> {
    numeral(flattened(c.r, c.a), 4) + " "@ + numeral(flattened(c.g, c.a), 4) + " "@ + numeral(
        flattened(c.b, c.a),
        4,
    ) + " rg"@
}

/// Append the operator that selects `c` as the fill.
pub fn push_rgb(s: &mut String, c: Rgba8)
    ensures
        final(s)@ == old(s)@ + rgb_text(c),
{
    let ghost s0 = s@;
    let rgb: [i128; 3] = over_white(c);
    push_num(s, rgb[0], 4);
    push_text(s, " ");
    push_num(s, rgb[1], 4);
    push_text(s, " ");
    push_num(s, rgb[2], 4);
    push_text(s, " rg");
    assert(s@ =~= s0 + rgb_text(c));
}

// ---- Drawing operations -------------------------------------------------

/// A position in units of the last decimal place.
#[derive(Clone, Copy, Debug, PartialEq, Eq, Structural)]
pub struct Point {
    pub x: i64,
    pub y: i64,
}

/// A position on the page, whose y axis may run up.
#[derive(Clone, Copy, Debug, PartialEq, Eq, Structural)]
pub struct PagePoint {
    pub x: i128,
    pub y: i128,
}

/// One cubic of an expanded arc.
#[derive(Clone, Copy, Debug, PartialEq, Eq, Structural)]
pub struct Bend {
    pub c1: Point,
    pub c2: Point,
    pub to: Point,
}

/// A drawing operation reduced to the primitives every page-description
/// language understands: no arcs, and already in the target coordinate system.
#[derive(Clone, Copy, Debug, PartialEq, Eq, Structural)]
pub enum PathOp {
    Move(PagePoint),
    Line(PagePoint),
    Curve(PagePoint, PagePoint, PagePoint),
    Close,
}

/// Where `p` lands: with a height, the y axis is turned to run up from the
/// bottom edge.
pub open spec fn placed(p: Point, flip_height: Option<i64>) -> PagePoint {
    match flip_height {
        Some(h) => PagePoint { x: p.x as i128, y: (h - p.y) as i128 },
        None => PagePoint { x: p.x as i128, y: p.y as i128 },
    }
}

fn place(p: Point, flip_height: Option<i64>) -> (q: PagePoint)
    ensures
        q == placed(p, flip_height),
{
    match flip_height {
        Some(h) => PagePoint { x: p.x as i128, y: h as i128 - p.y as i128 },
        None => PagePoint { x: p.x as i128, y: p.y as i128 },
    }
}

pub open spec fn bend_op(b: Bend, flip: Option<i64>) -> PathOp {
    PathOp::Curve(placed(b.c1, flip), placed(b.c2, flip), placed(b.to, flip))
}

/// The operations of one command, whose expansion is `bends` if it is an arc.
pub open spec fn seg_ops(
    seg: Seg<Point, i64>,
    bends: Seq<Bend>,
    flip: Option<i64>,
) -> Seq<PathOp> {
    match seg {
        Seg::Line { to } => seq![PathOp::Line(placed(to, flip))],
        Seg::Cubic { c1, c2, to } => seq![bend_op(Bend { c1, c2, to }, flip)],
        Seg::Arc { .. } => Seq::new(bends.len(), |k: int| bend_op(bends[k], flip)),
    }
}

pub open spec fn segs_ops(
    segs: Seq<Seg<Point, i64>>,
    bends: Seq<Vec<Bend>>,
    flip: Option<i64>,
) -> Seq<PathOp>
    decreases segs.len(),
{
    if segs.len() == 0 {
        seq![]
    } else {
        segs_ops(segs.drop_last(), bends, flip) + seg_ops(
            segs.last(),
            bends[segs.len() - 1]@,
            flip,
        )
    }
}

/// The operations of a subpath: a move to its start, its commands in order, and
/// a close where it is closed.
pub open spec fn lowered(
    sp: PathView<Point, i64>,
    bends: Seq<Vec<Bend>>,
    flip: Option<i64>,
) -> Seq<PathOp> {
    seq![PathOp::Move(placed(sp.start, flip))] + segs_ops(sp.segs, bends, flip) + if sp.closed {
        seq![PathOp::Close]
    } else {
        seq![]
    }
}

/// Lower a subpath to `PathOp`s, replacing each arc by its expansion into
/// cubics and optionally flipping the y axis.
///
/// SVG puts the origin at the top left with y running down; PostScript, PDF and
/// DXF all put it at the bottom left with y running up. Passing the page height
/// here performs that flip once, in one place.
pub fn lower(sp: &SubPath<Point, i64>, bends: &Vec<Vec<Bend>>, flip_height: Option<i64>) -> (ops:
    Vec<PathOp>)
    requires
        bends@.len() == sp.segs@.len(),
    ensures
        ops@ == lowered(sp@, bends@, flip_height),
{
    let mut ops: Vec<PathOp> = Vec::new();
    ops.push(PathOp::Move(place(sp.start, flip_height)));
    let ghost head = seq![PathOp::Move(placed(sp.start, flip_height))];
    let segs: &Vec<Seg<Point, i64>> = &sp.segs;
    let mut i: usize = 0;
    assert(ops@ =~= head + segs_ops(segs@.take(0), bends@, flip_height));
    while i < segs.len()
        invariant
            i <= segs@.len(),
            bends@.len() == segs@.len(),
            ops@ == head + segs_ops(segs@.take(i as int), bends@, flip_height),
        decreases segs@.len() - i,
    {
        let ghost before = ops@;
        match segs[i] {
            Seg::Line { to } => {
                ops.push(PathOp::Line(place(to, flip_height)));
            },
            Seg::Cubic { c1, c2, to } => {
                ops.push(
                    PathOp::Curve(
                        place(c1, flip_height),
                        place(c2, flip_height),
                        place(to, flip_height),
                    ),
                );
            },
            Seg::Arc { .. } => {
                let list: &Vec<Bend> = &bends[i];
                let mut k: usize = 0;
                while k < list.len()
                    invariant
                        k <= list@.len(),
                        ops@ == before + Seq::new(
                            k as nat,
                            |n: int| bend_op(list@[n], flip_height),
                        ),
                    decreases list@.len() - k,
                {
                    let b: Bend = list[k];
                    ops.push(
                        PathOp::Curve(
                            place(b.c1, flip_height),
                            place(b.c2, flip_height),
                            place(b.to, flip_height),
                        ),
                    );
                    k = k + 1;
                    assert(ops@ =~= before + Seq::new(
                        k as nat,
                        |n: int| bend_op(list@[n], flip_height),
                    ));
                }
            },
        }
        proof {
            let next = segs@.take(i + 1);
            assert(next.drop_last() =~= segs@.take(i as int));
            assert(ops@ =~= before + seg_ops(segs@[i as int], bends@[i as int]@, flip_height));
            assert(ops@ =~= head + segs_ops(next, bends@, flip_height));
        }
        i = i + 1;
    }
    assert(segs@.take(i as int) =~= segs@);
    if sp.closed {
        ops.push(PathOp::Close);
    }
    assert(ops@ =~= lowered(sp@, bends@, flip_height));
    ops
}

/// A lowered subpath begins where the subpath begins, with the y axis turned where a page
/// height is given, and it is closed at its end exactly where the subpath is.
pub proof fn law_lowering_keeps_start_and_close(
    sp: PathView<Point, i64>,
    bends: Seq<Vec<Bend>>,
    h: i64,
)
    ensures
        lowered(sp, bends, Some(h))[0] == PathOp::Move(
            PagePoint { x: sp.start.x as i128, y: (h - sp.start.y) as i128 },
        ),
        lowered(sp, bends, None)[0] == PathOp::Move(
            PagePoint { x: sp.start.x as i128, y: sp.start.y as i128 },
        ),
        sp.segs.len() == 0 && !sp.closed ==> lowered(sp, bends, Some(h)).len() == 1,
        sp.closed ==> lowered(sp, bends, Some(h)) == lowered(
            (PathView { closed: false, ..sp }),
            bends,
            Some(h),
        ).push(PathOp::Close),
{
    let open = lowered(PathView { closed: false, ..sp }, bends, Some(h));
    if sp.closed {
        assert(lowered(sp, bends, Some(h)) =~= open.push(PathOp::Close));
    }
    assert(segs_ops(sp.segs.take(0), bends, Some(h)).len() == 0);
}

/// Each command adds what it draws at the end of what the commands before it draw: a line
/// to its end, a cubic with its control points in order, an arc the cubics it was
/// expanded into. Heights are counted from the bottom of a page of height `h`.
pub proof fn law_lowering_draws_each_command(
    start: Point,
    segs: Seq<Seg<Point, i64>>,
    seg: Seg<Point, i64>,
    bends: Seq<Vec<Bend>>,
    h: i64,
)
    requires
        bends.len() > segs.len(),
    ensures
        ({
            let before = lowered(PathView { start, segs, closed: false }, bends, Some(h));
            let after = lowered(PathView { start, segs: segs.push(seg), closed: false }, bends, Some(h));
            let n = before.len() as int;
            let up = |q: Point| PagePoint { x: q.x as i128, y: (h - q.y) as i128 };
            &&& after.take(n) == before
            &&& match seg {
                Seg::Line { to } => after.len() == n + 1 && after[n] == PathOp::Line(up(to)),
                Seg::Cubic { c1, c2, to } => after.len() == n + 1 && after[n] == PathOp::Curve(
                    up(c1),
                    up(c2),
                    up(to),
                ),
                Seg::Arc { .. } => {
                    let list = bends[segs.len() as int]@;
                    &&& after.len() == n + list.len()
                    &&& forall|k: int|
                        0 <= k < list.len() ==> #[trigger] after[n + k] == PathOp::Curve(
                            up(list[k].c1),
                            up(list[k].c2),
                            up(list[k].to),
                        )
                },
            }
        }),
{
    let before = lowered(PathView { start, segs, closed: false }, bends, Some(h));
    let after = lowered(PathView { start, segs: segs.push(seg), closed: false }, bends, Some(h));
    assert(segs.push(seg).drop_last() =~= segs);
    assert(after.take(before.len() as int) =~= before);
}

// ---- Pages --------------------------------------------------------------

/// One filled shape on a page.
pub struct Fill {
    pub color: Rgba8,
    pub paths: Vec<Vec<PathOp>>,
}

/// A page of filled shapes. Sizes are in units of the last decimal place.
pub struct Artwork {
    pub width: i64,
    pub height: i64,
    pub background: Option<Rgba8>,
    pub fills: Vec<Fill>,
}

/// Whether every command of `image` has its (possibly empty) list of bends.
pub open spec fn bends_fit(
    shapes: Seq<Shape<Point, i64>>,
    bends: Seq<Vec<Vec<Vec<Bend>>>>,
) -> bool {
    &&& bends.len() == shapes.len()
    &&& forall|i: int|
        #![trigger shapes[i]]
        0 <= i < shapes.len() ==> bends[i]@.len() == shapes[i].subpaths@.len()
    &&& forall|i: int, j: int|
        #![trigger shapes[i].subpaths@[j]]
        0 <= i < shapes.len() && 0 <= j < shapes[i].subpaths@.len() ==> bends[i]@[j]@.len()
            == shapes[i].subpaths@[j].segs@.len()
}

/// Whether `fill` is `shape` lowered onto a page of height `h`.
pub open spec fn fill_of(
    fill: Fill,
    shape: Shape<Point, i64>,
    bends: Seq<Vec<Vec<Bend>>>,
    h: i64,
) -> bool {
    &&& fill.color == shape.color
    &&& fill.paths@.len() == shape.subpaths@.len()
    &&& forall|j: int|
        0 <= j < fill.paths@.len() ==> (#[trigger] fill.paths@[j])@ == lowered(
            shape.subpaths@[j]@,
            bends[j]@,
            Some(h),
        )
}

/// Whether `page` is `image` lowered, shape by shape, with the y axis running
/// up.
pub open spec fn is_page_of(
    page: Artwork,
    image: VectorImage<Point, i64>,
    bends: Seq<Vec<Vec<Vec<Bend>>>>,
) -> bool {
    &&& page.width == image.width
    &&& page.height == image.height
    &&& page.background == image.background
    &&& page.fills@.len() == image.shapes@.len()
    &&& forall|i: int|
        0 <= i < page.fills@.len() ==> fill_of(
            #[trigger] page.fills@[i],
            image.shapes@[i],
            bends[i]@,
            image.height,
        )
}

/// A page keeps the size, the background, the colours and the order of a document, and
/// each subpath begins as far above the bottom of the page as it began above the bottom
/// edge of the document.
pub proof fn law_pages_stand_upright(
    page: Artwork,
    image: VectorImage<Point, i64>,
    bends: Seq<Vec<Vec<Vec<Bend>>>>,
    i: int,
    j: int,
)
    requires
        is_page_of(page, image, bends),
        0 <= i < image.shapes@.len(),
        0 <= j < image.shapes@[i].subpaths@.len(),
    ensures
        page.width == image.width,
        page.height == image.height,
        page.background == image.background,
        page.fills@.len() == image.shapes@.len(),
        page.fills@[i].color == image.shapes@[i].color,
        page.fills@[i].paths@.len() == image.shapes@[i].subpaths@.len(),
        page.fills@[i].paths@[j]@[0] == PathOp::Move(
            PagePoint {
                x: image.shapes@[i].subpaths@[j].start.x as i128,
                y: (image.height - image.shapes@[i].subpaths@[j].start.y) as i128,
            },
        ),
        page.fills@[i].paths@[j]@.last() == PathOp::Close || !image.shapes@[i].subpaths@[j].closed,
{
    let fill = page.fills@[i];
    assert(fill_of(fill, image.shapes@[i], bends[i]@, image.height));
    assert(fill.paths@[j]@ == lowered(
        image.shapes@[i].subpaths@[j]@,
        bends[i]@[j]@,
        Some(image.height),
    ));
    law_lowering_keeps_start_and_close(
        image.shapes@[i].subpaths@[j]@,
        bends[i]@[j]@,
        image.height,
    );
}

/// Lower a whole document onto a page with the y axis running up.
pub fn lay_out(image: &VectorImage<Point, i64>, bends: &Vec<Vec<Vec<Vec<Bend>>>>) -> (page:
    Artwork)
    requires
        bends_fit(image.shapes@, bends@),
    ensures
        is_page_of(page, *image, bends@),
{
    let mut fills: Vec<Fill> = Vec::new();
    let mut i: usize = 0;
    while i < image.shapes.len()
        invariant
            i <= image.shapes@.len(),
            bends_fit(image.shapes@, bends@),
            fills@.len() == i,
            forall|k: int|
                0 <= k < i ==> fill_of(
                    #[trigger] fills@[k],
                    image.shapes@[k],
                    bends@[k]@,
                    image.height,
                ),
        decreases image.shapes@.len() - i,
    {
        let shape: &Shape<Point, i64> = &image.shapes[i];
        let mut paths: Vec<Vec<PathOp>> = Vec::new();
        let mut j: usize = 0;
        while j < shape.subpaths.len()
            invariant
                i < image.shapes@.len(),
                *shape == image.shapes@[i as int],
                bends_fit(image.shapes@, bends@),
                j <= shape.subpaths@.len(),
                paths@.len() == j,
                forall|k: int|
                    0 <= k < j ==> (#[trigger] paths@[k])@ == lowered(
                        shape.subpaths@[k]@,
                        bends@[i as int]@[k]@,
                        Some(image.height),
                    ),
            decreases shape.subpaths@.len() - j,
        {
            assert(bends@[i as int]@[j as int]@.len()
                == image.shapes@[i as int].subpaths@[j as int].segs@.len());
            paths.push(lower(&shape.subpaths[j], &bends[i][j], Some(image.height)));
            j = j + 1;
        }
        fills.push(Fill { color: shape.color, paths });
        i = i + 1;
    }
    Artwork { width: image.width, height: image.height, background: image.background, fills }
}

/// A position as two numbers.
pub open spec fn point_text(q: PagePoint, p: nat) -> Seq<char> {
    numeral(q.x as int, p) + " "@ + numeral(q.y as int, p) + " "@
}

/// One operation in the notation that EPS and PDF content share.
pub open spec fn op_text(op: PathOp, p: nat) -> Seq<char> {
    match op {
        PathOp::Move(a) => point_text(a, p) + "m\n"@,
        PathOp::Line(a) => point_text(a, p) + "l\n"@,
        PathOp::Curve(a, b, d) => point_text(a, p) + point_text(b, p) + point_text(d, p) + "c\n"@,
        PathOp::Close => "h\n"@,
    }
}

pub open spec fn ops_text(ops: Seq<PathOp>, p: nat) -> Seq<char>
    decreases ops.len(),
{
    if ops.len() == 0 {
        seq![]
    } else {
        ops_text(ops.drop_last(), p) + op_text(ops.last(), p)
    }
}

pub open spec fn paths_text(paths: Seq<Vec<PathOp>>, p: nat) -> Seq<char>
    decreases paths.len(),
{
    if paths.len() == 0 {
        seq![]
    } else {
        paths_text(paths.drop_last(), p) + ops_text(paths.last()@, p)
    }
}

fn push_point(s: &mut String, q: PagePoint, precision: u32)
    ensures
        final(s)@ == old(s)@ + point_text(q, precision as nat),
{
    let ghost s0 = s@;
    push_num(s, q.x, precision);
    push_text(s, " ");
    push_num(s, q.y, precision);
    push_text(s, " ");
    assert(s@ =~= s0 + point_text(q, precision as nat));
}

fn push_op(s: &mut String, op: PathOp, precision: u32)
    ensures
        final(s)@ == old(s)@ + op_text(op, precision as nat),
{
    let ghost s0 = s@;
    match op {
        PathOp::Move(a) => {
            push_point(s, a, precision);
            push_text(s, "m\n");
        },
        PathOp::Line(a) => {
            push_point(s, a, precision);
            push_text(s, "l\n");
        },
        PathOp::Curve(a, b, d) => {
            push_point(s, a, precision);
            push_point(s, b, precision);
            push_point(s, d, precision);
            push_text(s, "c\n");
        },
        PathOp::Close => {
            push_text(s, "h\n");
        },
    }
    assert(s@ =~= s0 + op_text(op, precision as nat));
}

/// Append the operations of a shape's paths.
pub fn push_paths(s: &mut String, paths: &Vec<Vec<PathOp>>, precision: u32)
    ensures
        final(s)@ == old(s)@ + paths_text(paths@, precision as nat),
{
    let ghost s0 = s@;
    let ghost p = precision as nat;
    let mut i: usize = 0;
    assert(s@ =~= s0 + paths_text(paths@.take(0), p));
    while i < paths.len()
        invariant
            i <= paths@.len(),
            p == precision as nat,
            s@ == s0 + paths_text(paths@.take(i as int), p),
        decreases paths@.len() - i,
    {
        let ops: &Vec<PathOp> = &paths[i];
        let ghost before = s@;
        let mut k: usize = 0;
        assert(s@ =~= before + ops_text(ops@.take(0), p));
        while k < ops.len()
            invariant
                k <= ops@.len(),
                p == precision as nat,
                s@ == before + ops_text(ops@.take(k as int), p),
            decreases ops@.len() - k,
        {
            push_op(s, ops[k], precision);
            proof {
                let next = ops@.take(k + 1);
                assert(next.drop_last() =~= ops@.take(k as int));
                assert(s@ =~= before + ops_text(next, p));
            }
            k = k + 1;
        }
        proof {
            assert(ops@.take(k as int) =~= ops@);
            let next = paths@.take(i + 1);
            assert(next.drop_last() =~= paths@.take(i as int));
            assert(s@ =~= s0 + paths_text(next, p));
        }
        i = i + 1;
    }
    assert(paths@.take(i as int) =~= paths@);
}

// ---- Formats ------------------------------------------------------------

/// A document with what the writers need beside it.
pub struct Sheet {
    pub image: VectorImage<Point, i64>,
    /// The expansion of every arc into cubics.
    pub bends: Vec<Vec<Vec<Vec<Bend>>>>,
    /// The page size in whole units, rounded up.
    pub whole_width: u64,
    pub whole_height: u64,
    /// The decimal place that coordinates of `image` are counted in.
    pub precision: u32,
    /// The document flattened to outlines, and its size, counted in
    /// `dxf::decimal_places` of the precision.
    pub cuts: Vec<Cut>,
    pub cut_width: i64,
    pub cut_height: i64,
}

/// Whether `out` is `sheet` in the given format.
pub open spec fn is_export(format: VectorFormat, sheet: Sheet, out: Seq<u8>) -> bool {
    let p = sheet.precision as nat;
    match format {
        VectorFormat::Svg => out == encode_utf8(svg::document(sheet.image, p)),
        VectorFormat::Eps => exists|page: Artwork| #[trigger]
            is_page_of(page, sheet.image, sheet.bends@) && out == encode_utf8(
                eps::document(page, sheet.whole_width as nat, sheet.whole_height as nat, p),
            ),
        VectorFormat::Pdf => exists|page: Artwork| #[trigger]
            is_page_of(page, sheet.image, sheet.bends@) && out == pdf::document(page, p),
        VectorFormat::Dxf => out == encode_utf8(
            dxf::groups_text(
                dxf::document(
                    sheet.cuts@,
                    sheet.cut_width as int,
                    sheet.cut_height as int,
                    dxf::places(p),
                ),
            ),
        ),
    }
}

/// Write a document in the requested format.
pub fn export(format: VectorFormat, sheet: &Sheet) -> (out: Vec<u8>)
    requires
        bends_fit(sheet.image.shapes@, sheet.bends@),
    ensures
        is_export(format, *sheet, out@),
{
    let mut out: Vec<u8> = Vec::new();
    match format {
        VectorFormat::Svg => {
            let s: String = svg::write(&sheet.image, sheet.precision);
            push_bytes(&mut out, s.as_str());
            assert(out@ =~= encode_utf8(s@));
        },
        VectorFormat::Eps => {
            let page: Artwork = lay_out(&sheet.image, &sheet.bends);
            let s: String = eps::write(
                &page,
                sheet.whole_width,
                sheet.whole_height,
                sheet.precision,
            );
            push_bytes(&mut out, s.as_str());
            assert(out@ =~= encode_utf8(s@));
            assert(is_page_of(page, sheet.image, sheet.bends@));
        },
        VectorFormat::Pdf => {
            let page: Artwork = lay_out(&sheet.image, &sheet.bends);
            out = pdf::write(&page, sheet.precision);
            assert(is_page_of(page, sheet.image, sheet.bends@));
        },
        VectorFormat::Dxf => {
            let places: u32 = dxf::decimal_places(sheet.precision);
            let s: String = dxf::write(
                &sheet.cuts,
                sheet.cut_width,
                sheet.cut_height,
                places,
            );
            push_bytes(&mut out, s.as_str());
            assert(out@ =~= encode_utf8(s@));
        },
    }
    out
}

} // verus!
