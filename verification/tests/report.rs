use vectify::color::Rgba8;
use vectify::config::{PaletteMethod, Preset, SegmentMode, VectorFormat};
use vectify::config::{DEFAULT_TRANSPARENT_TOLERANCE, SegmentConfig};
use vectify::model::Complexity;
use vectify::profile::classify;
use vectify::report::{
    bar, format_bench, format_candidate_table, format_config, format_profile, format_report,
    summarize, truncate, BenchLine, BenchRow, BenchTotals, Calibration, Figures, TableRow,
};
use vectify::tuning::{color_error, format_error, format_for, parse_color, TuningArgs};

#[test]
fn bar_scales_and_clamps() {
    let of = |f: f64| bar((f * 1e9) as i64, 4);
    assert_eq!(of(0.0), "----");
    assert_eq!(of(1.0), "####");
    assert_eq!(of(0.5), "##--");
    assert_eq!(of(-5.0), "----");
    assert_eq!(of(9.0), "####");
}

#[test]
fn truncate_keeps_width() {
    assert_eq!(truncate("short", 10), "short");
    assert_eq!(truncate("a-very-long-label-here", 10).len(), 10);
    assert_eq!(truncate("a-very-long-label-here", 10), "a-very-...");
    assert_eq!(truncate("abcd", 2), "...");
}

fn tuning() -> TuningArgs {
    TuningArgs {
        preset: Preset::Logo,
        colors: None,
        binary: false,
        threshold: None,
        tolerance: None,
        smoothing: None,
        corner_threshold: None,
        despeckle: None,
        palette: None,
        no_subpixel: false,
        true_arcs: false,
        no_arcs: false,
        recolor: false,
        no_group: false,
        scale: 1_000_000_000,
        precision: 3,
        transparent: Vec::new(),
        transparent_tolerance: DEFAULT_TRANSPARENT_TOLERANCE,
    }
}

#[test]
fn transparent_colours_reach_the_config() {
    let mut a = tuning();
    a.transparent = ["#fff", "00ff00"].iter().map(|c| parse_color(c).unwrap()).collect();
    let cfg = a.build(VectorFormat::Svg);
    assert_eq!(
        cfg.segment.transparent_colors,
        vec![Rgba8::opaque(255, 255, 255), Rgba8::opaque(0, 255, 0)]
    );
}

#[test]
fn transparent_tolerance_reaches_the_config() {
    let mut a = tuning();
    a.transparent_tolerance = 15_000_000_000;
    let cfg = a.build(VectorFormat::Svg);
    assert_eq!(cfg.segment.transparent_tolerance as f64 / 1e9, 15.0);
}

#[test]
fn nothing_is_transparent_unless_asked() {
    let cfg = tuning().build(VectorFormat::Svg);
    assert!(cfg.segment.transparent_colors.is_empty());
    assert!(SegmentConfig::default().transparent_colors.is_empty());
}

#[test]
fn a_bad_colour_is_rejected_with_a_useful_message() {
    let err = parse_color("banana").err().expect("should not parse");
    assert!(err.contains("not a colour"), "{err}");
    assert_eq!(err, "\"banana\" is not a colour; use #rrggbb or #rgb");
    // The offending text is quoted, so what was typed can be told apart.
    assert!(parse_color("a\"b").unwrap_err().starts_with("\"a\\\"b\" is not"));
    assert_eq!(color_error("x"), "x is not a colour; use #rrggbb or #rgb");
}

#[test]
fn formats_follow_the_extension() {
    assert_eq!(format_for("\"out.svg\"", Some("svg")), Ok(VectorFormat::Svg));
    assert_eq!(format_for("\"OUT.PDF\"", Some("PDF")), Ok(VectorFormat::Pdf));
    assert_eq!(format_for("\"a.ps\"", Some("ps")), Ok(VectorFormat::Eps));
    assert_eq!(format_for("\"cut.dxf\"", Some("dxf")), Ok(VectorFormat::Dxf));
    let err = format_for("\"out\"", None).unwrap_err();
    assert_eq!(err, "cannot infer a vector format from \"out\"; use .svg, .eps, .pdf or .dxf");
    assert!(format_for("\"a.png\"", Some("png")).is_err());
    assert!(format_error("q").contains("from q;"));
}

#[test]
fn tuning_overrides_the_preset() {
    let mut a = tuning();
    a.colors = Some(1);
    a.smoothing = Some(3_000_000_000);
    a.palette = Some(PaletteMethod::MedianCut);
    a.true_arcs = true;
    a.no_group = true;
    let c = a.build(VectorFormat::Eps);
    assert_eq!(c.segment.colors, 2, "fewer than two colours is no palette");
    assert_eq!(c.segment.mode, SegmentMode::Palette);
    assert_eq!(c.corners.smoothing, 1_000_000_000);
    assert_eq!(c.segment.palette_method, PaletteMethod::MedianCut);
    assert!(c.fit.allow_arcs && c.fit.emit_true_arcs && !c.output.group_by_color);
    assert_eq!(c.output.format, VectorFormat::Eps);

    a.binary = true;
    a.no_arcs = true;
    a.no_subpixel = true;
    a.threshold = Some(250_000_000);
    a.tolerance = Some(700_000_000);
    a.corner_threshold = Some(30_000_000_000);
    a.despeckle = Some(9);
    let c = a.build(VectorFormat::Svg);
    assert_eq!(c.segment.mode, SegmentMode::Binary, "two-tone wins over a colour count");
    assert!(!c.fit.allow_arcs && !c.subpixel.enabled);
    assert_eq!(c.segment.threshold, Some(250_000_000));
    assert_eq!(c.fit.tolerance, 700_000_000);
    assert_eq!(c.corners.threshold_deg, 30_000_000_000);
    assert_eq!(c.segment.despeckle_area, 9);
}

#[test]
fn report_lines_up() {
    let s = |t: &str| t.to_string();
    let f = Figures {
        match_pct: s("9.50"),
        bar: 500_000_000,
        mean_delta_e: s("1.00"),
        p95_delta_e: s("2.00"),
        max_delta_e: s("3.00"),
        rmse: s("4.00"),
        psnr: s("30.0"),
        ssim: s("0.9000"),
        size_kb: s("1.5"),
        render_ms: s("7"),
        compare_ms: s("8"),
    };
    let c = Complexity {
        shapes: 2,
        subpaths: 2,
        segments: 5,
        anchors: 6,
        handles: 4,
        lines: 3,
        cubics: 2,
        arcs: 0,
    };
    let text = format_report(&f, &c);
    let lines: Vec<&str> = text.lines().collect();
    assert_eq!(lines.len(), 5);
    assert_eq!(lines[0], "  match     9.50%  [############------------]   (pixels within deltaE 2.0)");
    assert_eq!(lines[1], "  deltaE  mean 1.00  p95 2.00  max 3.00");
    assert_eq!(lines[2], "  rmse    4.00   psnr 30.0 dB   ssim 0.9000");
    assert_eq!(lines[3], "  points  10 (6 anchors + 4 handles) in 5 segments, 2 shapes");
    assert_eq!(lines[4], "  size    1.5 KB   render 7 ms   compare 8 ms");
}

#[test]
fn profiles_are_named_by_what_they_are() {
    let art = classify(10, 10, true, 4, 100, 10, 0, 90);
    assert_eq!(
        format_profile(&art, "0", "90", "10.0"),
        "  profile: pixel-art, bilevel, has-alpha | 4 colours | anti-aliasing 0% | flat 90% | edges 10.0%"
    );
    let plain = classify(10, 10, false, 100, 100, 10, 5, 40);
    assert!(format_profile(&plain, "50", "40", "10.0").starts_with("  profile: general artwork | 100"));
}

#[test]
fn settings_read_as_a_line() {
    let mut a = tuning();
    a.transparent = vec![Rgba8::opaque(255, 255, 255), Rgba8::opaque(0, 0, 0)];
    a.no_subpixel = true;
    a.true_arcs = true;
    a.colors = Some(5);
    a.despeckle = Some(4);
    assert_eq!(
        format_config(&a.build(VectorFormat::Svg), "0.50", "0.30", "40"),
        "  config:  5 colours, tolerance 0.50px, smoothing 0.30, corners 40 deg, \
         despeckle 4px, no sub-pixel, true arcs, transparent #ffffff #000000"
    );
    let mut b = tuning();
    b.binary = true;
    assert!(format_config(&b.build(VectorFormat::Svg), "1", "1", "1").starts_with("  config:  binary, "));
}

#[test]
fn the_candidate_table_is_cut_off() {
    let row = |i: usize| TableRow {
        label: format!("candidate-{i}"),
        match_pct: "99.00".to_string(),
        points: i,
        meets: i % 2 == 0,
        size_kb: "1.0".to_string(),
        ms: "5".to_string(),
    };
    let rows: Vec<TableRow> = (0..50).map(row).collect();
    let s = format_candidate_table(&rows);
    let lines: Vec<&str> = s.lines().collect();
    assert_eq!(lines.len(), 42, "a head of two lines and forty rows");
    assert_eq!(lines[0], "candidate                  match%   points      ok  size KB     ms");
    assert_eq!(lines[1], "-".repeat(66));
    assert_eq!(lines[2], "candidate-0                 99.00        0     yes      1.0      5");
    assert_eq!(lines[3], "candidate-1                 99.00        1      no      1.0      5");
}

#[test]
fn the_benchmark_adds_up() {
    let row = |match_key, meets, points, calibrated| BenchRow {
        match_key,
        meets,
        points,
        pixels: 100,
        calibrated,
    };
    let s = summarize(&vec![
        row(990, true, 10, false),
        row(950, false, 20, true),
        row(950, false, 30, true),
        row(995, true, 40, false),
    ]);
    assert_eq!(s.passed, 2);
    assert_eq!(s.total_points, 100);
    assert_eq!(s.total_pixels, 400);
    assert_eq!(s.worst, Some(1), "of equals the first");
    assert_eq!(s.calibrated, vec![1, 2]);
    assert_eq!(summarize(&Vec::new()).worst, None);
}

#[test]
fn the_benchmark_table_lines_up() {
    let line = |name: &str, known: bool, meets: bool| BenchLine {
        name: name.to_string(),
        match_pct: "98.50".to_string(),
        known: known.then(|| ("99.00".to_string(), "0.50".to_string())),
        mean_delta_e: "0.31".to_string(),
        points: 42,
        size_kb: "1.5".to_string(),
        meets,
        trace_ms: "17".to_string(),
        search_ms: (!known).then(|| "230".to_string()),
    };
    let row = |meets, calibrated| BenchRow {
        match_key: 98_500_000_000,
        meets,
        points: 42,
        pixels: 1_000_000,
        calibrated,
    };
    let summary = summarize(&vec![row(true, true), row(false, false)]);
    let totals = BenchTotals {
        target: "99.0".to_string(),
        mean_match: "98.50".to_string(),
        total_ms: "34".to_string(),
        worst_name: "star".to_string(),
        worst_match: "98.50".to_string(),
        calibration: Some(Calibration {
            cases: 1,
            mean_ceiling: "99.00".to_string(),
            mean_gap: "0.50".to_string(),
            worst_gap: "0.50".to_string(),
        }),
        throughput: Some(("58.8".to_string(), "2.00".to_string())),
    };
    let rows = vec![line("star", true, true), line("photo", false, false)];
    let rule = "-".repeat(94);
    let want = format!(
        "case            match%   ceil%    gap  deltaE    pts size KB     ok trace ms pick ms\n\
         {rule}\n\
         star             98.50   99.00   0.50    0.31     42     1.5    yes       17       -\n\
         photo            98.50       -      -    0.31     42     1.5     NO       17     230\n\
         {rule}\n\
         MEAN/TOTAL       98.50                            84            1/2       34\n\
         \n1 of 2 images reached the 99.0% target.  Worst: star at 98.50%.\n\
         \nOf those, 1 have known geometry. Scoring the exact original shapes gives a\n\
         ceiling of 99.00% on average -- that is what a flawless tracer would score here,\n\
         the rest being the difference between two renderers' anti-aliasing. Tracing\n\
         lands 0.50 points below that ceiling on average, 0.50 at worst.\n\
         Throughput: 58.8 megapixels/second across 2.00 MP of input.\n"
    );
    assert_eq!(format_bench(&rows, &summary, &totals), want);
    let bare = BenchTotals { calibration: None, throughput: None, ..totals };
    assert!(format_bench(&rows, &summary, &bare).ends_with("Worst: star at 98.50%.\n"));
}
