//! Filters over small images, in whole numbers.

use vectify::artifacts::{add_block_artifacts, add_noise};
use vectify::export::Point;
use vectify::bounds::Rect;
use vectify::filter::{bilateral, blur, flatness_weights, Around};
use vectify::model::{Shape, VectorImage};
use vectify::color::Rgba8;
use vectify::path::{count_handles, Seg, SubPath};
use vectify::quantize::Rng;
use vectify::raster::Raster;

#[test]
fn a_blur_clamps_at_the_edges() {
    let add = |acc: i64, v: i64, k: i64| acc + v * k;
    // Across: 1*1+2*1+3*3, ... then the single row is summed with itself.
    let out = blur(&add, 0, &vec![1, 2, 3, 4], 4, 1, &vec![1, 2, 1]);
    assert_eq!(out, vec![20, 32, 48, 60]);
    // Down a column the same numbers come out.
    assert_eq!(blur(&add, 0, &vec![1, 2, 3, 4], 1, 4, &vec![1, 2, 1]), out);
    // A kernel of one tap scales, twice.
    assert_eq!(blur(&add, 0, &vec![1, 2, 3, 4], 2, 2, &vec![3]), vec![9, 18, 27, 36]);
    assert_eq!(blur(&add, 0, &Vec::new(), 0, 7, &vec![1]), Vec::<i64>::new());
}

#[test]
fn smoothing_skips_what_lies_outside() {
    let img = Raster { width: 3, height: 2, data: vec![1i64, 2, 3, 4, 5, 6] };
    let sum = |acc: (i64, i64), _: usize, near: usize, _: usize| {
        (acc.0 + img.data[near], acc.1 + 1)
    };
    let both = |acc: (i64, i64), own: i64| acc.0 * 100 + acc.1 * 10 + own;
    let out = bilateral(&sum, &both, (0, 0), &img, 1, true);
    // A corner has four neighbours, itself among them; the middle has six.
    assert_eq!(out.data, vec![1241, 2162, 1643, 1244, 2165, 1646]);
    assert_eq!(bilateral(&sum, &both, (0, 0), &img, 1, false).data, img.data);
    assert_eq!(bilateral(&sum, &both, (0, 0), &img, 0, true).data, img.data);
}

#[test]
fn a_window_is_walked_row_by_row() {
    let img = Raster { width: 2, height: 2, data: vec![0u8; 4] };
    let note = |acc: u64, at: usize, near: usize, cell: usize| {
        acc * 1000 + (at * 100 + near * 10 + cell) as u64
    };
    let keep = std::cell::RefCell::new(Vec::new());
    let last = |acc: u64, own: u8| {
        keep.borrow_mut().push(acc);
        own
    };
    bilateral(&note, &last, 0, &img, 1, true);
    let seen = keep.into_inner();
    assert_eq!(seen[0], 4_015_027_038);
    assert_eq!(seen[3], 300_311_323_334);
}

#[test]
fn flatness_looks_at_the_eight_around() {
    let img = Raster { width: 3, height: 3, data: (1..=9).collect::<Vec<i32>>() };
    let all = |a: Around<i32>| vec![a.nw, a.n, a.ne, a.w, a.e, a.sw, a.s, a.se];
    let sums = |a: Around<i32>| all(a).iter().sum::<i32>();
    let out = flatness_weights(&sums, &img, -1);
    assert_eq!(out[4], 40);
    // At the corner the border is repeated: 1, 1, 2, 1, 2, 4, 4, 5.
    assert_eq!(out[0], 20);
    let thin = Raster { width: 2, height: 9, data: vec![0; 18] };
    assert_eq!(flatness_weights(&sums, &thin, -1), vec![-1; 18]);
}

#[test]
fn the_box_is_the_smallest_around_the_outlines() {
    let at = |x: i64, y: i64| Point { x, y };
    let mut sp: SubPath<Point, i64> = SubPath::new(at(3, -2));
    sp.segs.push(Seg::Cubic { c1: at(9, 9), c2: at(9, 9), to: at(5, 4) });
    sp.segs.push(Seg::Line { to: at(-1, 0) });
    assert_eq!(count_handles(&sp.segs), 2);
    let image = VectorImage {
        width: 10,
        height: 10,
        shapes: vec![Shape { color: Rgba8::opaque(0, 0, 0), subpaths: vec![sp] }],
        background: None,
    };
    let flat = |sp: &SubPath<Point, i64>| sp.flatten(&vec![vec![at(6, 1), at(5, 4)], Vec::new()]);
    let b = image.bounds(&flat);
    assert_eq!(b, Rect { x0: -1, y0: -2, x1: 6, y1: 4 });
    assert_eq!((b.width(), b.height()), (7, 6));
    let none = VectorImage { width: 1, height: 1, shapes: Vec::new(), background: None };
    let b = none.bounds(&flat);
    assert_eq!((b, b.width(), b.height()), (Rect::empty(), 0, 0));
}

#[test]
fn noise_follows_from_its_seed() {
    let img = Raster { width: 2, height: 1, data: vec![(0u64, 0u64, 0u64); 2] };
    let shake = |_: (u64, u64, u64), a: u64, b: u64, c: u64| (a, b, c);
    let out = add_noise(&shake, &img, 0x5A17);
    let mut rng = Rng::new(0x5A17);
    let mut next = || rng.next_u64();
    let first = (next(), next(), next());
    assert_eq!(out.data, vec![first, (next(), next(), next())]);
    assert_ne!(out.data, add_noise(&shake, &img, 1).data);
}

#[test]
fn every_pixel_rings_with_its_own_block() {
    // 9 by 9: one whole block, two strips and a corner.
    let img = Raster { width: 9, height: 9, data: (0..81).collect::<Vec<i64>>() };
    let out = add_block_artifacts(
        &|n: (i64, i64), c: i64| (n.0 + 1, n.1 + c),
        &|c: i64, n: (i64, i64)| c * 100 + n.0,
        (0, 0),
        &img,
    );
    for (i, v) in out.data.iter().enumerate() {
        let n = match (i % 9 < 8, i / 9 < 8) {
            (true, true) => 64,
            (false, false) => 1,
            _ => 8,
        };
        assert_eq!(*v, i as i64 * 100 + n);
    }
}
