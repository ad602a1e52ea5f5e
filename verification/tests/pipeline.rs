//! From labelled pixels to a vector document.

use vectify::color::Rgba8;
use vectify::lattice::GridPoint;
use vectify::model::{Shape, VectorImage};
use vectify::path::{reverse_segs, Seg, SubPath};
use vectify::quantize::{finish_palette, Palette, PaletteEntry};
use vectify::raster::Raster;
use vectify::segment::{region_colors, scoring_reference, segment, Segmentation};
use vectify::topology::{build, Topology};
use vectify::vectorize::{assemble, FittedArc};

const WHITE: Rgba8 = Rgba8 { r: 255, g: 255, b: 255, a: 255 };
const BLACK: Rgba8 = Rgba8 { r: 0, g: 0, b: 0, a: 255 };
const RED: Rgba8 = Rgba8 { r: 217, g: 26, b: 26, a: 255 };
const BLUE: Rgba8 = Rgba8 { r: 26, g: 51, b: 217, a: 255 };
const CLEAR: Rgba8 = Rgba8 { r: 0, g: 0, b: 0, a: 0 };

type Image = Raster<Rgba8>;
type Seg2 = Segmentation<Rgba8>;

fn solid(w: u32, h: u32, c: Rgba8) -> Image {
    Raster::new(w, h, c)
}

fn fill(img: &mut Image, x0: u32, y0: u32, x1: u32, y1: u32, c: Rgba8) {
    for y in y0..y1 {
        for x in x0..x1 {
            img.set(x, y, c);
        }
    }
}

/// A palette of the image's own colours, the keyed ones flagged.
fn palette_of(img: &Image, keys: &[Rgba8]) -> Palette<Rgba8> {
    let mut colors: Vec<Rgba8> = Vec::new();
    for c in &img.data {
        if c.a > 0 && !colors.contains(c) {
            colors.push(*c);
        }
    }
    let entries = colors.iter().map(|c| PaletteEntry::opaque(*c, *c)).collect();
    let has_alpha = img.data.iter().any(|c| c.a == 0);
    finish_palette(
        &|k: Rgba8| k,
        &|entry: Rgba8, key: Rgba8| entry == key,
        entries,
        &keys.to_vec(),
        has_alpha,
        BLACK,
    )
}

fn seg_keyed(img: &Image, keys: &[Rgba8], despeckle: u32) -> Seg2 {
    let palette = palette_of(img, keys);
    let labels = palette.assign_labels(
        &|c: Rgba8| c.a == 0,
        &|c: Rgba8| c,
        &|e: Rgba8, c: Rgba8| {
            let d = |a: u8, b: u8| (a as i32 - b as i32).unsigned_abs();
            d(e.r, c.r) + d(e.g, c.g) + d(e.b, c.b)
        },
        &img.data,
    );
    segment(img.width, img.height, palette, labels, despeckle)
}

fn seg_of(img: &Image) -> Seg2 {
    seg_keyed(img, &[], 0)
}

fn two_squares() -> Image {
    let mut r = solid(20, 8, WHITE);
    fill(&mut r, 2, 2, 6, 6, BLACK);
    fill(&mut r, 12, 2, 16, 6, BLACK);
    r
}

// ---- Segmentation -------------------------------------------------------

#[test]
fn blobs_of_one_entry_are_two_regions() {
    let seg = seg_of(&two_squares());
    // One background plus two squares.
    assert_eq!(seg.region_count(), 3, "regions: {:?}", seg.region_area);
    let a = seg.region_at(3, 3);
    let b = seg.region_at(13, 3);
    assert_ne!(a, b, "same-coloured but disconnected blobs must not share a region");
    assert_eq!(seg.region_area[a as usize], 16);
    assert_eq!(seg.region_area[b as usize], 16);
}

#[test]
fn a_speck_goes_to_its_surroundings() {
    let mut img = solid(16, 16, WHITE);
    // A single stray dark pixel, the shape JPEG noise and scanner dust take.
    img.set(8, 8, BLACK);
    let kept = seg_keyed(&img, &[], 0);
    assert_eq!(kept.region_count(), 2, "speck should survive with despeckle off");
    let cleaned = seg_keyed(&img, &[], 4);
    assert_eq!(cleaned.region_count(), 1, "speck should be absorbed");
}

#[test]
fn clear_pixels_take_the_alpha_slot() {
    let mut img = solid(8, 8, Rgba8::opaque(51, 102, 153));
    fill(&mut img, 4, 0, 8, 8, CLEAR);
    let seg = seg_of(&img);
    assert!(seg.palette.alpha_slot.is_some());
    assert!(seg.is_transparent(seg.region_at(6, 4)));
    assert!(!seg.is_transparent(seg.region_at(1, 4)));
}

/// Left half white, right half red: an opaque image with a colour to key out.
fn white_and_red() -> Image {
    let mut r = solid(8, 8, WHITE);
    fill(&mut r, 4, 0, 8, 8, Rgba8::opaque(204, 26, 26));
    r
}

#[test]
fn a_keyed_entry_is_a_transparent_region() {
    let seg = seg_keyed(&white_and_red(), &[WHITE], 0);
    assert!(seg.is_transparent(seg.region_at(1, 4)), "white should be keyed out");
    assert!(!seg.is_transparent(seg.region_at(6, 4)), "red should still be painted");
    assert_eq!(seg.region_fill(seg.region_at(1, 4)), CLEAR);
    assert_eq!(seg.palette.alpha_slot, None, "an opaque image needs no alpha slot");
}

#[test]
fn a_keyed_entry_keeps_its_colour() {
    let seg = seg_keyed(&white_and_red(), &[WHITE], 0);
    let bg = seg.region_color[seg.region_at(1, 4) as usize];
    assert_eq!((bg.r, bg.g, bg.b, bg.a), (255, 255, 255, 255));
}

fn reference(img: &Image, keys: &[Rgba8]) -> Option<Image> {
    scoring_reference(
        &|k: Rgba8| k,
        &|c: Rgba8| c,
        &|key: Rgba8, c: Rgba8| key == c,
        &|c: Rgba8| Rgba8::new(c.r, c.g, c.b, 0),
        img,
        &keys.to_vec(),
    )
}

#[test]
fn no_reference_is_made_without_a_key() {
    let img = white_and_red();
    assert!(reference(&img, &[]).is_none());
}

#[test]
fn a_reference_clears_the_keyed_pixels() {
    let img = white_and_red();
    let r = reference(&img, &[WHITE]).expect("a cleared copy");
    assert_eq!(r.get(1, 4).a, 0, "white pixel should be transparent");
    assert_eq!(r.get(6, 4).a, 255, "red pixel should be untouched");
    assert_eq!(img.get(1, 4).a, 255, "the original must not be modified");
}

#[test]
fn a_region_takes_its_mean_colour_or_else_its_entry() {
    let mut img = solid(12, 6, Rgba8::opaque(204, 51, 51));
    fill(&mut img, 6, 0, 12, 6, Rgba8::opaque(51, 77, 217));
    let mut seg = seg_of(&img);
    // A palette that sits off the source colours.
    for e in seg.palette.entries.iter_mut() {
        e.color = BLACK;
    }
    let colors = region_colors(
        &img.data,
        &seg.regions,
        &seg.palette,
        &seg.region_label,
        (0u32, 0u32, 0u32, 0u32),
        &|s: (u32, u32, u32, u32), c: Rgba8| {
            (s.0 + c.r as u32, s.1 + c.g as u32, s.2 + c.b as u32, s.3 + 1)
        },
        &|s: (u32, u32, u32, u32)| {
            (s.3 > 0).then(|| Rgba8::opaque((s.0 / s.3) as u8, (s.1 / s.3) as u8, (s.2 / s.3) as u8))
        },
    );
    let left = colors[seg.region_at(2, 3) as usize];
    assert!((left.r as i32 - 204).abs() < 12, "got {:?}", left);
    assert!((left.g as i32 - 51).abs() < 12, "got {:?}", left);
    let weightless = region_colors(
        &img.data,
        &seg.regions,
        &seg.palette,
        &seg.region_label,
        0u32,
        &|s: u32, _: Rgba8| s,
        &|_| None,
    );
    assert!(weightless.iter().all(|c| *c == BLACK), "no weight, so the palette's colour");
}

// ---- Topology -----------------------------------------------------------

fn dark_square() -> Image {
    let mut img = solid(20, 20, WHITE);
    fill(&mut img, 5, 5, 15, 15, BLACK);
    img
}

#[test]
fn a_square_has_one_ring_and_its_field_two() {
    let seg = seg_of(&dark_square());
    let topo = build(&seg);

    // Four sides of the image of 21 points each, and a loop of 41.
    assert_eq!(topo.total_arc_vertices(), 125);
    let sq = seg.region_at(10, 10);
    let rings = &topo.region_rings[sq as usize];
    assert_eq!(rings.len(), 1, "square should have exactly one ring");
    assert!(!rings[0].is_hole(), "the square's own ring is an outer ring");
    // 10x10 square: the crack contour encloses exactly 100 lattice units.
    assert_eq!(rings[0].doubled_area.abs(), 200);

    let bg = seg.region_at(0, 0);
    let bg_rings = &topo.region_rings[bg as usize];
    assert_eq!(bg_rings.len(), 2, "background has an outer ring plus a hole");
    assert_eq!(bg_rings.iter().filter(|r| r.is_hole()).count(), 1);
}

#[test]
fn a_border_is_one_arc_with_two_directions() {
    let seg = seg_of(&dark_square());
    let topo = build(&seg);
    let sq = seg.region_at(10, 10);
    let bg = seg.region_at(0, 0);

    let sq_arcs: Vec<u32> = topo.region_rings[sq as usize]
        .iter()
        .flat_map(|r| r.refs.iter().map(|a| a.arc))
        .collect();
    let hole =
        topo.region_rings[bg as usize].iter().find(|r| r.is_hole()).expect("background hole");
    let hole_arcs: Vec<u32> = hole.refs.iter().map(|a| a.arc).collect();

    assert_eq!(sq_arcs.len(), 1);
    assert_eq!(hole_arcs, sq_arcs, "both regions must cite the same arc id");

    // And they cite it in opposite directions.
    let sq_ref = topo.region_rings[sq as usize][0].refs[0];
    let bg_ref = hole.refs[0];
    assert_eq!(sq_ref.arc, bg_ref.arc);
    assert_ne!(sq_ref.reversed, bg_ref.reversed);
}

fn stripes() -> Image {
    let mut img = solid(30, 10, Rgba8::opaque(230, 26, 26));
    fill(&mut img, 10, 0, 20, 10, Rgba8::opaque(26, 217, 38));
    fill(&mut img, 20, 0, 30, 10, Rgba8::opaque(26, 38, 230));
    img
}

#[test]
fn stripes_meet_at_the_border() {
    // Three vertical stripes: the two internal borders are separate arcs, each
    // shared by the pair of stripes it separates.
    let seg = seg_of(&stripes());
    assert_eq!(seg.region_count(), 3);
    let topo = build(&seg);

    let mid = seg.region_at(15, 5);
    let mid_rings = &topo.region_rings[mid as usize];
    assert_eq!(mid_rings.len(), 1);
    // Middle stripe is bounded by: left border arc, right border arc, and the
    // two image-edge runs along top and bottom.
    assert!(mid_rings[0].refs.len() >= 3);
    assert_eq!(mid_rings[0].doubled_area.abs(), 200);
}

/// The regions left and right of the unit step from `a` to `b`.
fn sides(seg: &Seg2, a: GridPoint, b: GridPoint) -> (u32, u32) {
    let (ax, ay) = (a.x as i64, a.y as i64);
    let (bx, by) = (b.x as i64, b.y as i64);
    let at = |x: i64, y: i64| seg.region_at_signed(x, y);
    match (bx - ax, by - ay) {
        (1, 0) => (at(ax, ay - 1), at(ax, ay)),
        (-1, 0) => (at(bx, by), at(bx, by - 1)),
        (0, 1) => (at(ax, ay), at(ax - 1, ay)),
        (0, -1) => (at(bx - 1, by), at(bx, by)),
        step => panic!("not a unit step: {step:?}"),
    }
}

#[test]
fn every_step_of_an_arc_has_its_two_sides() {
    let mut img = solid(24, 24, Rgba8::opaque(26, 26, 26));
    for y in 0..24 {
        for x in 0..24 {
            if (x / 6 + y / 6) % 2 != 0 {
                img.set(x, y, Rgba8::opaque(230, 230, 230));
            }
        }
    }
    let seg = seg_of(&img);
    let topo = build(&seg);
    for (i, arc) in topo.arcs.iter().enumerate() {
        assert_ne!(arc.left, arc.right, "arc {i} does not separate anything");
        assert_eq!(arc.is_empty(), arc.len() == 0);
        // Re-derive the sides at every step and confirm they never change.
        for k in 0..arc.points.len() - 1 {
            let (l, r) = sides(&seg, arc.points[k], arc.points[k + 1]);
            assert_eq!((l, r), (arc.left, arc.right), "arc {i} flips sides at step {k}");
        }
    }
}

fn disc() -> Image {
    let mut img = solid(32, 32, Rgba8::opaque(242, 242, 230));
    for y in 0..32 {
        for x in 0..32 {
            let d = ((x as f64 - 16.0).powi(2) + (y as f64 - 16.0).powi(2)).sqrt();
            if d < 10.0 {
                img.set(x, y, Rgba8::opaque(26, 51, 204));
            }
        }
    }
    img
}

#[test]
fn the_rings_of_a_disc_are_closed() {
    let seg = seg_of(&disc());
    let topo = build(&seg);
    for rings in &topo.region_rings {
        for ring in rings {
            let mut pts: Vec<GridPoint> = Vec::new();
            for r in &ring.refs {
                pts.extend(topo.arc_points(*r));
            }
            assert!(pts.len() > 2);
            assert_eq!(pts[0], *pts.last().unwrap(), "ring not closed");
        }
    }
}

#[test]
fn a_plain_image_has_four_border_arcs() {
    let img = solid(8, 8, Rgba8::opaque(51, 102, 153));
    let seg = seg_of(&img);
    let topo = build(&seg);
    // A single uniform region: its boundary is the image border, which must be
    // cut at the four corners rather than traced as one smooth loop.
    let r = seg.region_at(4, 4);
    let refs: usize = topo.region_rings[r as usize].iter().map(|ring| ring.refs.len()).sum();
    assert_eq!(refs, 4, "expected four border arcs, got {refs}");
    for arc in &topo.arcs {
        assert!(arc.on_border);
    }
}

#[test]
fn regions_are_as_large_as_their_rings_enclose() {
    for img in [disc(), stripes(), two_squares(), dark_square()] {
        let seg = seg_of(&img);
        let topo = build(&seg);
        for (r, rings) in topo.region_rings.iter().enumerate() {
            let doubled: i128 = rings.iter().map(|ring| ring.doubled_area).sum();
            assert_eq!(doubled, -2 * seg.region_area[r] as i128);
        }
    }
}

// ---- Assembly -----------------------------------------------------------

/// Straight lines through the corners of an arc.
fn lines(pts: &[GridPoint]) -> FittedArc<GridPoint, u32> {
    let mut segs = Vec::new();
    for k in 1..pts.len() {
        let turns = k + 1 == pts.len() || {
            let (a, b, c) = (pts[k - 1], pts[k], pts[k + 1]);
            (b.x as i64 - a.x as i64, b.y as i64 - a.y as i64)
                != (c.x as i64 - b.x as i64, c.y as i64 - b.y as i64)
        };
        if turns {
            segs.push(Seg::Line { to: pts[k] });
        }
    }
    FittedArc { start: pts[0], segs }
}

fn trace(img: &Image, keys: &[Rgba8], group: bool) -> VectorImage<GridPoint, u32> {
    let seg = seg_keyed(img, keys, 0);
    let topo: Topology<GridPoint> = build(&seg);
    let fitted: Vec<FittedArc<GridPoint, u32>> =
        topo.arcs.iter().map(|a| lines(&a.points)).collect();
    assemble(&topo.region_rings, &seg, &fitted, false, group, img.width, img.height, None)
}

#[test]
fn a_square_takes_two_shapes_on_the_lattice() {
    let mut img = solid(40, 40, WHITE);
    fill(&mut img, 10, 10, 30, 30, BLACK);
    let c = trace(&img, &[], true).complexity();
    assert_eq!(c.shapes, 2, "background plus square");
    // A square should cost four line segments per ring and no handles at all.
    assert_eq!(c.handles, 0, "a square should need no curve handles");
    assert!(c.segments <= 12, "segments: {}", c.segments);
}

#[test]
fn a_diagonal_border_is_shared_on_the_lattice() {
    // Two colour fields meeting along a diagonal. The border must appear in both
    // shapes as the very same list of coordinates -- reversed, but point for
    // point identical.
    let mut img = solid(48, 48, Rgba8::opaque(217, 38, 38));
    for y in 0..48 {
        for x in 0..48 {
            if (x as f64) * 0.6 + (y as f64) * 0.8 >= 30.0 {
                img.set(x, y, Rgba8::opaque(38, 64, 217));
            }
        }
    }
    let out = trace(&img, &[], false);
    assert_eq!(out.shapes.len(), 2);
    let flat: Vec<Vec<GridPoint>> = out
        .shapes
        .iter()
        .map(|s| s.subpaths[0].flatten(&s.subpaths[0].segs.iter().map(|_| Vec::new()).collect()))
        .collect();
    // Every vertex of the shared border in shape 0 must coincide exactly with
    // one in shape 1.
    let matched = flat[0].iter().filter(|p| flat[1].contains(p)).count();
    assert!(
        matched > flat[0].len() / 4,
        "only {matched} of {} vertices were shared",
        flat[0].len()
    );
}

#[test]
fn clear_pixels_get_no_shape_on_the_lattice() {
    let mut img = solid(32, 32, CLEAR);
    fill(&mut img, 8, 8, 24, 24, Rgba8::opaque(230, 51, 51));
    let out = trace(&img, &[], true);
    assert_eq!(out.shapes.len(), 1, "only the opaque square is painted");
    assert_eq!(out.shapes[0].color.a, 255);
}

/// White page, a red square and a blue square.
fn page_with_two_squares() -> Image {
    let mut img = solid(60, 40, WHITE);
    fill(&mut img, 6, 10, 26, 30, RED);
    fill(&mut img, 34, 10, 54, 30, BLUE);
    img
}

#[test]
fn a_keyed_entry_gets_no_shape() {
    let img = page_with_two_squares();
    assert_eq!(trace(&img, &[], true).shapes.len(), 3);
    let keyed = trace(&img, &[WHITE], true);
    assert_eq!(keyed.shapes.len(), 2);
    assert!(keyed.shapes.iter().all(|s| s.color != WHITE && s.color.a == 255));
}

#[test]
fn several_entries_can_be_keyed_at_once() {
    let out = trace(&page_with_two_squares(), &[WHITE, BLUE], true);
    assert_eq!(out.shapes.len(), 1, "only the red square should be left");
    assert_eq!(out.shapes[0].color, RED);
}

#[test]
fn a_keyed_entry_inside_a_shape_is_a_hole() {
    let mut img = solid(40, 40, RED);
    fill(&mut img, 12, 12, 28, 28, WHITE);
    let out = trace(&img, &[WHITE], true);
    assert_eq!(out.shapes.len(), 1);
    assert_eq!(out.shapes[0].subpaths.len(), 2, "an outline and the hole in it");
}

#[test]
fn a_key_that_is_no_entry_changes_nothing() {
    let img = page_with_two_squares();
    let plain = trace(&img, &[], true);
    let keyed = trace(&img, &[Rgba8::opaque(0, 200, 0)], true);
    assert_eq!(plain.shapes.len(), keyed.shapes.len());
    assert_eq!(plain.complexity(), keyed.complexity());
}

#[test]
fn keying_moves_no_outline_on_the_lattice() {
    let img = page_with_two_squares();
    let plain = trace(&img, &[], false);
    let keyed = trace(&img, &[WHITE], false);
    for s in &keyed.shapes {
        let before = plain.shapes.iter().find(|p| p.color == s.color).expect("same colour");
        assert_eq!(before.subpaths.len(), s.subpaths.len());
        for (a, b) in before.subpaths.iter().zip(&s.subpaths) {
            assert_eq!((a.start, &a.segs), (b.start, &b.segs));
        }
    }
}

#[test]
fn every_outline_is_welded_on_the_lattice() {
    let mut img = solid(40, 40, Rgba8::opaque(230, 230, 26));
    fill(&mut img, 0, 0, 13, 40, Rgba8::opaque(230, 26, 26));
    fill(&mut img, 13, 0, 26, 13, Rgba8::opaque(26, 230, 26));
    fill(&mut img, 13, 13, 26, 40, Rgba8::opaque(26, 26, 230));
    let out = trace(&img, &[], true);
    assert!(!out.shapes.is_empty());
    for s in &out.shapes {
        for sp in &s.subpaths {
            assert!(sp.closed);
            assert_eq!(sp.end(), sp.start, "subpath not welded");
        }
    }
}

#[test]
fn thin_images_are_one_shape() {
    for (w, h) in [(1u32, 1u32), (1, 16), (16, 1), (2, 2)] {
        let out = trace(&solid(w, h, Rgba8::opaque(102, 128, 153)), &[], true);
        assert_eq!(out.width, w);
        assert_eq!(out.height, h);
        assert_eq!(out.shapes.len(), 1);
    }
}

#[test]
fn blocks_stay_rectilinear_on_the_lattice() {
    let mut img = solid(32, 32, Rgba8::opaque(26, 26, 26));
    for y in 0..32 {
        for x in 0..32 {
            if ((x / 4) + (y / 4)) % 2 != 0 {
                img.set(x, y, Rgba8::opaque(230, 230, 230));
            }
        }
    }
    let c = trace(&img, &[], true).complexity();
    assert_eq!(c.handles, 0, "pixel art must stay perfectly rectilinear");
    assert!(c.shapes >= 2);
}

#[test]
fn grouping_merges_shapes_of_one_colour() {
    let mut img = solid(40, 20, WHITE);
    fill(&mut img, 4, 5, 12, 15, Rgba8::opaque(26, 26, 26));
    fill(&mut img, 26, 5, 34, 15, Rgba8::opaque(26, 26, 26));
    let grouped = trace(&img, &[], true);
    let split = trace(&img, &[], false);
    assert_eq!(grouped.shapes.len(), 2, "one shape per colour");
    assert_eq!(split.shapes.len(), 3, "background plus two squares");
    // Grouping must not change the geometry, only how it is bundled.
    assert_eq!(grouped.complexity().segments, split.complexity().segments);
}

// ---- Documents ----------------------------------------------------------

#[derive(Clone, Copy, Debug, PartialEq)]
struct Pt(f64, f64);

fn square() -> Shape<Pt, f64> {
    let mut sp = SubPath::new(Pt(0.0, 0.0));
    sp.segs.push(Seg::Line { to: Pt(10.0, 0.0) });
    sp.segs.push(Seg::Cubic { c1: Pt(12.0, 3.0), c2: Pt(12.0, 7.0), to: Pt(10.0, 10.0) });
    sp.segs.push(Seg::Line { to: Pt(0.0, 10.0) });
    sp.segs.push(Seg::Line { to: Pt(0.0, 0.0) });
    sp.closed = true;
    Shape { color: Rgba8::opaque(255, 0, 0), subpaths: vec![sp] }
}

fn document() -> VectorImage<Pt, f64> {
    VectorImage { width: 10.0, height: 10.0, shapes: vec![square()], background: None }
}

#[test]
fn complexity_counts_points_the_way_an_editor_would() {
    let c = document().complexity();
    assert_eq!(c.shapes, 1);
    assert_eq!(c.segments, 4);
    assert_eq!(c.lines, 3);
    assert_eq!(c.cubics, 1);
    // Closed: four anchors, not five, because the last coincides with the first.
    assert_eq!(c.anchors, 4);
    assert_eq!(c.handles, 2);
    assert_eq!(c.total_points(), 6);
}

#[test]
fn scaling_moves_every_coordinate() {
    let s = document().map(&|p: Pt| Pt(p.0 * 2.0, p.1 * 2.0), &|r: f64| r * 2.0);
    assert_eq!(s.width, 20.0);
    assert_eq!(s.shapes[0].subpaths[0].segs[0].end(), Pt(20.0, 0.0));
}

#[test]
fn drawing_backwards_swaps_the_ends() {
    let sp = &square().subpaths[0];
    let back = reverse_segs(sp.start, &sp.segs);
    assert_eq!(back[0], Seg::Line { to: Pt(0.0, 10.0) });
    assert_eq!(
        back[2],
        Seg::Cubic { c1: Pt(12.0, 7.0), c2: Pt(12.0, 3.0), to: Pt(10.0, 0.0) }
    );
    assert_eq!(back[3].end(), sp.start);
    assert_eq!(reverse_segs(sp.end(), &back), sp.segs);
}

#[test]
fn arcs_turn_the_other_way_backwards() {
    let arc: Seg<Pt, f64> = Seg::Arc { r: 2.0, large: true, sweep: true, to: Pt(1.0, 0.0) };
    assert_eq!(
        arc.reversed(Pt(5.0, 5.0)),
        Seg::Arc { r: 2.0, large: true, sweep: false, to: Pt(5.0, 5.0) }
    );
    assert_eq!(arc.handles(), 2);
}

#[test]
fn rounding_and_drawing_backwards_commute() {
    let sp = &square().subpaths[0];
    let open = |start: Pt, segs: Vec<Seg<Pt, f64>>| VectorImage {
        width: 9.0,
        height: 9.0,
        shapes: vec![Shape { color: RED, subpaths: vec![SubPath { start, segs, closed: true }] }],
        background: None,
    };
    let round = |p: Pt| Pt((p.0 * 0.3).round(), (p.1 * 0.3).round());
    let there = open(sp.start, sp.segs.clone()).map(&round, &|r: f64| r);
    let back = open(sp.end(), reverse_segs(sp.start, &sp.segs)).map(&round, &|r: f64| r);
    let (there, back) = (&there.shapes[0].subpaths[0], &back.shapes[0].subpaths[0]);
    assert_eq!(there.segs[0], Seg::Line { to: Pt(3.0, 0.0) });
    assert_eq!(back.segs, reverse_segs(there.start, &there.segs));
    assert_eq!((back.start, there.end()), (there.end(), there.start), "still welded");
}
