use vectify::color::Rgba8;
use vectify::config::{Preset, VectorFormat};
use vectify::model::Shape;
use vectify::raster::Raster;
use vectify::session::{
    apply_preset, export_name, suggested_transparent_color, swatches, Picture, Session, ViewMode,
    DEBOUNCE,
};
use vectify::worker::Queue;

#[test]
fn submitting_replaces_what_waits() {
    let mut q: Queue<&str> = Queue::new();
    assert!(!q.is_busy());
    assert_eq!(q.submit("a"), 1);
    let t = q.start().expect("a job waits");
    assert_eq!((t.generation, t.job), (1, "a"));
    // While the first runs, twenty more come in; only the last survives.
    for i in 0..20 {
        assert_eq!(q.submit(if i == 19 { "last" } else { "lost" }), 2 + i);
    }
    assert!(q.is_busy());
    q.finish();
    let t = q.start().expect("the latest job waits");
    assert_eq!((t.generation, t.job), (21, "last"));
    assert!(q.start().is_none());
    q.finish();
    assert!(!q.is_busy());
}

#[test]
fn only_the_awaited_generation_is_accepted() {
    let mut s = Session::new();
    s.trace_submitted(1);
    s.trace_submitted(2);
    assert!(!s.traced(1), "superseded before it finished");
    assert!(s.traced(2));
    assert!(!s.traced(2), "nothing is awaited any more");
    assert!(!s.is_working(false));
    assert!(s.is_working(true));
}

#[test]
fn a_change_waits_for_the_debounce() {
    let mut s = Session::new();
    assert!(!s.maybe_trace(1000, true), "nothing changed");
    s.mark_dirty(1000);
    assert!(!s.maybe_trace(1000 + DEBOUNCE - 1, true));
    assert!(s.is_working(false));
    assert!(s.maybe_trace(1000 + DEBOUNCE, true));
    assert!(!s.maybe_trace(5000, true), "one trace per change");
    s.mark_dirty(6000);
    s.flush_debounce(6001);
    assert!(s.maybe_trace(6001, true));
    s.mark_dirty(7000);
    assert!(!s.maybe_trace(9000, false), "no image, no trace");
    assert_eq!(s.dirty_since, None, "and the change is forgotten");
}

#[test]
fn a_finished_search_is_adopted_and_traced() {
    let mut s = Session::new();
    s.auto_submitted(4);
    assert!(!s.auto_done(3, 10));
    assert!(s.auto_done(4, 10));
    assert_eq!(s.awaiting, None);
    assert_eq!(s.dirty_since, Some(10));
    assert!(!s.auto_done(4, 20));
}

#[test]
fn failures_end_the_wait() {
    let mut s = Session::new();
    s.trace_submitted(5);
    s.failed(4);
    assert_eq!(s.awaiting, Some(5));
    s.failed(5);
    assert_eq!(s.awaiting, None);
}

#[test]
fn presets_keep_what_was_asked_for() {
    let mut c = Preset::Logo.config();
    c.segment.transparent_colors = vec![Rgba8::opaque(1, 2, 3)];
    c.segment.transparent_tolerance = 42;
    c.output.format = VectorFormat::Dxf;
    c.segment.colors = 77;
    apply_preset(&mut c, Preset::PixelArt);
    assert_eq!(c.segment.transparent_colors, vec![Rgba8::opaque(1, 2, 3)]);
    assert_eq!(c.segment.transparent_tolerance, 42);
    assert_eq!(c.output.format, VectorFormat::Dxf);
    assert_eq!(c.segment.colors, Preset::PixelArt.config().segment.colors);
    assert!(!c.subpixel.enabled);
}

#[test]
fn the_corner_pixel_is_suggested() {
    let white = Rgba8::opaque(255, 255, 255);
    assert_eq!(suggested_transparent_color(None), white);
    let mut r = Raster::new(2, 2, Rgba8::new(10, 20, 30, 200));
    assert_eq!(suggested_transparent_color(Some(&r)), Rgba8::opaque(10, 20, 30));
    r.set(0, 0, Rgba8::new(10, 20, 30, 127));
    assert_eq!(suggested_transparent_color(Some(&r)), white, "mostly transparent");
    assert_eq!(suggested_transparent_color(Some(&Raster::new(0, 5, white))), white);
}

#[test]
fn exports_are_named_after_the_image() {
    assert_eq!(export_name(Some("cat"), VectorFormat::Pdf), "cat.pdf");
    assert_eq!(export_name(None, VectorFormat::Svg), "traced.svg");
}

#[test]
fn views_have_labels_and_pictures() {
    let labels: Vec<&str> = ViewMode::all().iter().map(|m| m.label()).collect();
    assert_eq!(labels, ["Original", "Vector", "Side by side", "Wipe", "Difference"]);
    assert_eq!(ViewMode::Wipe.pictures(), (vec![Picture::Original, Picture::Vector], true));
    assert_eq!(ViewMode::Difference.pictures(), (vec![Picture::Difference], false));
}

#[test]
fn each_colour_of_a_result_is_shown_once() {
    let shape = |v: u8| Shape::<u8, u8> { color: Rgba8::opaque(v, 0, 0), subpaths: Vec::new() };
    let shown = swatches(&vec![shape(3), shape(1), shape(3), shape(2), shape(1)]);
    assert_eq!(shown.iter().map(|c| c.r).collect::<Vec<u8>>(), [3, 1, 2]);
    assert_eq!(swatches(&(0..100).map(shape).collect()).len(), 64);
    assert!(swatches::<u8, u8>(&Vec::new()).is_empty());
}

#[test]
fn a_superseded_search_is_discarded() {
    let mut s = Session::new();
    s.auto_submitted(1);
    s.trace_submitted(2);
    assert_eq!((s.awaiting, s.auto_generation), (Some(2), None));
    assert!(!s.auto_done(1, 50));
    assert_eq!((s.awaiting, s.dirty_since), (Some(2), None), "the trace is still awaited");
    assert!(s.traced(2));
    // A failed search cannot come back either.
    s.auto_submitted(3);
    s.failed(3);
    assert!(!s.auto_done(3, 60));
}
