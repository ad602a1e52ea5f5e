use vectify::color::Rgba8;
use vectify::config::VectorFormat;
use vectify::export::dxf::{self, Cut, Outline};
use vectify::export::{self, eps, num, over_white, pdf, svg, Bend, PagePoint, PathOp, Point, Sheet};
use vectify::model::{Shape, VectorImage};
use vectify::path::{Seg, SubPath};

type Image = VectorImage<Point, i64>;

/// A position in whole units, counted in thousandths.
fn pt(x: i64, y: i64) -> Point {
    Point { x: x * 1000, y: y * 1000 }
}

fn triangle() -> SubPath<Point, i64> {
    let mut sp = SubPath::new(pt(0, 0));
    sp.segs.push(Seg::Line { to: pt(10, 0) });
    sp.segs.push(Seg::Line { to: pt(10, 20) });
    sp.closed = true;
    sp
}

fn doc(color: Rgba8) -> Image {
    VectorImage {
        width: 10_000,
        height: 20_000,
        shapes: vec![Shape { color, subpaths: vec![triangle()] }],
        background: None,
    }
}

/// No arcs: every command has an empty expansion.
fn straight(image: &Image) -> Vec<Vec<Vec<Vec<Bend>>>> {
    image
        .shapes
        .iter()
        .map(|s| s.subpaths.iter().map(|p| p.segs.iter().map(|_| Vec::new()).collect()).collect())
        .collect()
}

fn eps_doc() -> String {
    let image = doc(Rgba8::opaque(255, 0, 0));
    eps::write(&export::lay_out(&image, &straight(&image)), 10, 20, 3)
}

fn pdf_doc() -> Vec<u8> {
    let image = doc(Rgba8::opaque(0, 128, 255));
    pdf::write(&export::lay_out(&image, &straight(&image)), 3)
}

/// The same triangle, closed explicitly, in ten-thousandths.
fn dxf_doc() -> String {
    let at = |x: i64, y: i64| Point { x: x * 10_000, y: y * 10_000 };
    let cut = Cut {
        color: Rgba8::opaque(0x11, 0x22, 0x33),
        outlines: vec![Outline {
            closed: true,
            returns: true,
            points: vec![at(0, 0), at(10, 0), at(10, 20), at(0, 0)],
        }],
    };
    dxf::write(&vec![cut], 100_000, 200_000, dxf::decimal_places(3))
}

/// A number in units of the last of `places` decimals.
fn units(v: f64, places: u32) -> i128 {
    if !v.is_finite() {
        return 0;
    }
    let digits: String =
        format!("{:.*}", places as usize, v).chars().filter(|c| *c != '.').collect();
    digits.parse().unwrap_or(0)
}

#[test]
fn number_formatting_is_compact() {
    let num = |v: f64, places: u32| num(units(v, places), places);
    assert_eq!(num(1.0, 3), "1");
    assert_eq!(num(1.5000, 3), "1.5");
    assert_eq!(num(1.23456, 3), "1.235");
    assert_eq!(num(-0.0001, 3), "0");
    assert_eq!(num(0.0, 3), "0");
    assert_eq!(num(-12.25, 2), "-12.25");
    assert_eq!(num(f64::NAN, 3), "0");
}

#[test]
fn number_formatting_edges() {
    assert_eq!(num(5, 3), "0.005");
    assert_eq!(num(-5, 1), "-0.5");
    assert_eq!(num(100, 0), "100");
    assert_eq!(num(-7, 0), "-7");
    assert_eq!(num(i128::MIN, 0), "-170141183460469231731687303715884105728");
    assert_eq!(num(10, 12), "0.00000000001");
}

#[test]
fn translucent_colours_composite_rather_than_vanish() {
    let half = Rgba8::new(0, 0, 0, 128);
    let c = over_white(half);
    assert!((c[0] as f64 / 1e4 - 0.498).abs() < 0.01);
    assert_eq!(c, [4980, 4980, 4980]);
}

#[test]
fn opaque_and_invisible_colours_flatten_exactly() {
    assert_eq!(over_white(Rgba8::opaque(255, 0, 128)), [10000, 0, 5020]);
    assert_eq!(over_white(Rgba8::new(9, 9, 9, 0)), [10000, 10000, 10000]);
}

#[test]
fn lowering_expands_arcs_and_flips() {
    let mut sp: SubPath<Point, i64> = SubPath::new(Point { x: 1, y: 2 });
    sp.segs.push(Seg::Arc { r: 5, large: false, sweep: true, to: Point { x: 3, y: 4 } });
    let b = Bend { c1: Point { x: 1, y: 3 }, c2: Point { x: 2, y: 4 }, to: Point { x: 3, y: 4 } };
    let up = export::lower(&sp, &vec![vec![b]], Some(10));
    let at = |x: i128, y: i128| PagePoint { x, y };
    assert_eq!(up, vec![PathOp::Move(at(1, 8)), PathOp::Curve(at(1, 7), at(2, 6), at(3, 6))]);
    let down = export::lower(&sp, &vec![vec![b]], None);
    assert_eq!(down[0], PathOp::Move(at(1, 2)));
    sp.closed = true;
    assert_eq!(export::lower(&sp, &vec![vec![]], None), vec![PathOp::Move(at(1, 2)), PathOp::Close]);
}

#[test]
fn has_required_eps_structure() {
    let s = eps_doc();
    assert!(s.starts_with("%!PS-Adobe-3.0 EPSF-3.0"));
    assert!(s.contains("%%BoundingBox: 0 0 10 20"));
    assert!(s.contains("%%EndComments"));
    assert!(s.trim_end().ends_with("%%EOF"));
    assert!(s.contains("1 0 0 rg"));
}

#[test]
fn y_axis_is_flipped_for_postscript() {
    let s = eps_doc();
    // Top-left (0,0) in image space is bottom-left (0,20) on the page.
    assert!(s.contains("0 20 m"), "{s}");
    // And (10,20) in image space maps to y=0.
    assert!(s.contains("10 0 l"), "{s}");
}

#[test]
fn eps_background_is_a_rectangle() {
    let mut image = doc(Rgba8::opaque(1, 2, 3));
    image.background = Some(Rgba8::opaque(255, 255, 255));
    image.shapes[0].subpaths.clear();
    let s = eps::write(&export::lay_out(&image, &straight(&image)), 10, 20, 3);
    assert!(s.contains("1 1 1 rg 0 0 10 20 rectfill\nshowpage\n%%EOF\n"), "{s}");
}

#[test]
fn has_pdf_header_and_trailer() {
    let b = pdf_doc();
    let s = String::from_utf8_lossy(&b);
    assert!(s.starts_with("%PDF-1.7"));
    assert!(s.contains("/Type /Catalog"));
    assert!(s.contains("/MediaBox [0 0 10 20]"));
    assert!(s.contains("startxref"));
    assert!(s.trim_end().ends_with("%%EOF"));
}

/// Byte offset of `needle` in `hay`, searching from the end.
fn rfind_bytes(hay: &[u8], needle: &[u8]) -> Option<usize> {
    if needle.len() > hay.len() {
        return None;
    }
    (0..=hay.len() - needle.len()).rev().find(|&i| &hay[i..i + needle.len()] == needle)
}

fn find_bytes(hay: &[u8], needle: &[u8]) -> Option<usize> {
    if needle.len() > hay.len() {
        return None;
    }
    (0..=hay.len() - needle.len()).find(|&i| &hay[i..i + needle.len()] == needle)
}

#[test]
fn xref_offsets_point_at_their_objects() {
    // This works on raw bytes throughout: the header carries a deliberately
    // non-UTF-8 binary marker.
    let b = pdf_doc();
    // Find the table itself, not the `startxref` pointer that follows it and
    // also ends in "xref".
    let xref_at = rfind_bytes(&b, b"\nxref\n").expect("xref table") + 1;
    let table = &b[xref_at..];

    assert!(table.starts_with(b"xref\n0 5\n"));
    let entries = &table[b"xref\n0 5\n".len()..];
    assert_eq!(&entries[..20], b"0000000000 65535 f \n");

    for n in 1..=4usize {
        let e = &entries[n * 20..n * 20 + 20];
        assert_eq!(e[19], b'\n', "entry {n} is not 20 bytes");
        let off: usize = std::str::from_utf8(&e[..10]).unwrap().parse().expect("offset");
        let want = format!("{n} 0 obj");
        assert!(
            b[off..].starts_with(want.as_bytes()),
            "object {n}: offset {off} points at {:?}",
            String::from_utf8_lossy(&b[off..(off + 12).min(b.len())])
        );
    }

    // And startxref must point at the table we just validated.
    let sx = rfind_bytes(&b, b"startxref\n").expect("startxref") + "startxref\n".len();
    let end = sx + b[sx..].iter().position(|&c| c == b'\n').unwrap();
    let declared: usize = std::str::from_utf8(&b[sx..end]).unwrap().parse().unwrap();
    assert_eq!(declared, xref_at);
}

#[test]
fn declared_stream_length_matches_reality() {
    let b = pdf_doc();
    let idx = find_bytes(&b, b"/Length ").expect("length") + b"/Length ".len();
    let end = idx + b[idx..].iter().position(|&c| c == b' ').unwrap();
    let declared: usize = std::str::from_utf8(&b[idx..end]).unwrap().parse().unwrap();
    let start = find_bytes(&b, b"stream\n").expect("stream") + b"stream\n".len();
    let stop = find_bytes(&b, b"endstream").expect("endstream");
    assert_eq!(declared, stop - start);
}

#[test]
fn pdf_begins_with_the_binary_marker() {
    let b = pdf_doc();
    assert_eq!(&b[..15], b"%PDF-1.7\n%\xE2\xE3\xCF\xD3\n");
}

#[test]
fn has_required_sections() {
    let s = dxf_doc();
    assert!(s.starts_with("0\nSECTION\n"));
    assert!(s.contains("2\nHEADER\n"));
    assert!(s.contains("2\nENTITIES\n"));
    assert!(s.contains("0\nPOLYLINE\n"));
    assert!(s.contains("0\nSEQEND\n"));
    assert!(s.trim_end().ends_with("EOF"));
}

#[test]
fn group_codes_come_in_pairs() {
    // Every DXF line alternates code, value. An odd count means a malformed
    // file that some readers accept and others reject silently.
    let s = dxf_doc();
    let lines: Vec<&str> = s.lines().collect();
    assert_eq!(lines.len() % 2, 0, "odd number of DXF lines");
    for c in lines.iter().step_by(2) {
        assert!(c.trim().parse::<i32>().is_ok(), "not a group code: {c:?}");
    }
}

#[test]
fn closed_polyline_does_not_repeat_its_first_vertex() {
    let s = dxf_doc();
    let verts = s.matches("0\nVERTEX\n").count();
    assert_eq!(verts, 3, "expected three distinct vertices, got {verts}");
}

#[test]
fn true_colour_is_encoded() {
    let s = dxf_doc();
    let want = ((0x11u32) << 16 | (0x22u32) << 8 | 0x33u32).to_string();
    assert!(s.contains(&format!("420\n{want}\n")), "missing true colour");
}

#[test]
fn dxf_writes_one_layer_per_shape_and_flips() {
    let outline = |closed| Outline {
        closed,
        returns: false,
        points: vec![Point { x: 0, y: 0 }, Point { x: 15_000, y: 20_000 }],
    };
    let lone = Outline { closed: false, returns: false, points: vec![Point { x: 1, y: 1 }] };
    let cuts = vec![
        Cut { color: Rgba8::opaque(0, 0, 1), outlines: vec![lone] },
        Cut { color: Rgba8::opaque(0, 0, 2), outlines: vec![outline(false)] },
    ];
    let s = dxf::write(&cuts, 20_000, 20_000, 4);
    assert!(!s.contains("VECTIFY_0"), "a lone point draws nothing");
    assert!(s.contains("0\nVERTEX\n8\nVECTIFY_1\n10\n1.5\n20\n0\n30\n0.0\n"), "{s}");
    assert!(s.contains("70\n0\n"));
    assert_eq!(dxf::pair(420, "7"), "420\n7\n");
    assert_eq!(dxf::decimal_places(2), 4);
    assert_eq!(dxf::decimal_places(6), 6);
}

#[test]
fn svg_draws_every_command() {
    let mut image = doc(Rgba8::new(255, 0, 0, 128));
    image.background = Some(Rgba8::opaque(0, 0, 255));
    image.shapes[0].subpaths[0].segs.push(Seg::Cubic { c1: pt(1, 1), c2: pt(2, 2), to: pt(3, 3) });
    image.shapes[0].subpaths[0].segs.push(Seg::Arc {
        r: 1500,
        large: true,
        sweep: false,
        to: pt(0, 0),
    });
    assert_eq!(
        svg::write(&image, 3),
        "<?xml version=\"1.0\" encoding=\"UTF-8\"?>\n\
         <svg xmlns=\"http://www.w3.org/2000/svg\" width=\"10\" height=\"20\" viewBox=\"0 0 10 20\">\n\
         <rect width=\"10\" height=\"20\" fill=\"#0000ff\"/>\n\
         <path fill=\"#ff0000\" fill-opacity=\"0.502\" \
         d=\"M0 0L10 0L10 20C1 1 2 2 3 3A1.5 1.5 0 1 0 0 0Z\"/>\n\
         </svg>\n"
    );
}

#[test]
fn export_follows_the_format() {
    let sheet = || {
        let image = doc(Rgba8::opaque(255, 0, 0));
        Sheet {
            bends: straight(&image),
            image,
            whole_width: 10,
            whole_height: 20,
            precision: 3,
            cuts: Vec::new(),
            cut_width: 100_000,
            cut_height: 200_000,
        }
    };
    assert!(export::export(VectorFormat::Svg, &sheet()).starts_with(b"<?xml"));
    assert_eq!(export::export(VectorFormat::Eps, &sheet()), eps_doc().into_bytes());
    assert!(export::export(VectorFormat::Pdf, &sheet()).starts_with(b"%PDF"));
    let dxf = export::export(VectorFormat::Dxf, &sheet());
    assert!(String::from_utf8(dxf).unwrap().contains("10\n10\n20\n20\n"));
}
