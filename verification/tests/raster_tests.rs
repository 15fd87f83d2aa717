use space_travel::assembly::{assemble, ScreenPoint, Triangle};
use space_travel::coverage::{HALF_PIXEL, SUBPIXEL};
use space_travel::raster::{rasterize, triangle};
use space_travel::sample::Sample;

fn p(x: i32, y: i32) -> ScreenPoint {
    ScreenPoint { x, y }
}

fn tri(a: (i32, i32), b: (i32, i32), c: (i32, i32)) -> Triangle {
    Triangle { a: p(a.0, a.1), b: p(b.0, b.1), c: p(c.0, c.1) }
}

fn pixels(samples: &[Sample]) -> Vec<(i32, i32)> {
    samples.iter().map(|s| (s.x, s.y)).collect()
}

#[test]
fn fixed_point_has_256_steps_to_the_pixel() {
    assert_eq!(SUBPIXEL, 256);
    assert_eq!(HALF_PIXEL, 128);
}

#[test]
fn assemble_groups_consecutive_triples() {
    let vertices: Vec<ScreenPoint> = (0..6).map(|i| p(i, 10 * i)).collect();
    let triangles = assemble(&vertices);
    assert_eq!(
        triangles,
        vec![tri((0, 0), (1, 10), (2, 20)), tri((3, 30), (4, 40), (5, 50))]
    );
}

#[test]
fn assemble_drops_trailing_vertices() {
    let vertices: Vec<ScreenPoint> = (0..7).map(|i| p(i, i)).collect();
    assert_eq!(assemble(&vertices).len(), 2);
    let vertices: Vec<ScreenPoint> = (0..8).map(|i| p(i, i)).collect();
    let triangles = assemble(&vertices);
    assert_eq!(triangles.len(), 2);
    assert_eq!(triangles[1], tri((3, 3), (4, 4), (5, 5)));
    assert_eq!(assemble(&vec![p(1, 1)]).len(), 0);
    assert_eq!(assemble(&vec![p(1, 1), p(2, 2)]).len(), 0);
}

#[test]
fn assemble_of_nothing_is_nothing() {
    assert_eq!(assemble(&Vec::new()), Vec::<Triangle>::new());
}

#[test]
fn right_triangle_covers_the_pixels_below_its_hypotenuse() {
    let t = tri((0, 0), (1024, 0), (0, 1024));
    let samples = triangle(&t, 0, 4, 4);
    assert_eq!(pixels(&samples), vec![(0, 0), (1, 0), (2, 0), (0, 1), (1, 1), (0, 2)]);
}

#[test]
fn weights_are_exact_and_sum_to_the_doubled_area() {
    let t = tri((0, 0), (1024, 0), (0, 1024));
    let samples = triangle(&t, 3, 4, 4);
    assert_eq!(
        samples[0],
        Sample { triangle: 3, x: 0, y: 0, weight_a: 786432, weight_b: 131072, weight_c: 131072 }
    );
    assert_eq!(
        samples[2],
        Sample { triangle: 3, x: 2, y: 0, weight_a: 262144, weight_b: 655360, weight_c: 131072 }
    );
    for s in &samples {
        assert!(s.weight_a >= 0 && s.weight_b >= 0 && s.weight_c >= 0);
        assert_eq!(s.weight_a + s.weight_b + s.weight_c, 1024 * 1024);
        assert_eq!(s.triangle, 3);
        let cx = (256 * s.x + 128) as i128;
        let cy = (256 * s.y + 128) as i128;
        assert_eq!(s.weight_b * 1024, cx * 1024 * 1024);
        assert_eq!(s.weight_c * 1024, cy * 1024 * 1024);
    }
}

#[test]
fn winding_does_not_change_the_coverage() {
    let clockwise = triangle(&tri((0, 0), (1024, 0), (0, 1024)), 0, 4, 4);
    let counter = triangle(&tri((0, 0), (0, 1024), (1024, 0)), 0, 4, 4);
    assert_eq!(pixels(&clockwise), pixels(&counter));
    for (s, r) in clockwise.iter().zip(counter.iter()) {
        assert_eq!(s.weight_a, r.weight_a);
        assert_eq!(s.weight_b, r.weight_c);
        assert_eq!(s.weight_c, r.weight_b);
    }
}

#[test]
fn vertex_order_does_not_change_the_coverage() {
    let base = pixels(&triangle(&tri((100, 40), (900, 300), (300, 1000)), 0, 4, 4));
    assert!(!base.is_empty());
    assert_eq!(pixels(&triangle(&tri((900, 300), (300, 1000), (100, 40)), 0, 4, 4)), base);
    assert_eq!(pixels(&triangle(&tri((300, 1000), (100, 40), (900, 300)), 0, 4, 4)), base);
    assert_eq!(pixels(&triangle(&tri((100, 40), (300, 1000), (900, 300)), 0, 4, 4)), base);
}

#[test]
fn triangle_without_area_covers_nothing() {
    assert!(triangle(&tri((0, 0), (512, 512), (1024, 1024)), 0, 4, 4).is_empty());
    assert!(triangle(&tri((128, 128), (128, 128), (128, 128)), 0, 4, 4).is_empty());
    assert!(triangle(&tri((0, 128), (1024, 128), (512, 128)), 0, 4, 4).is_empty());
    assert!(triangle(&tri((128, 0), (128, 0), (128, 1024)), 0, 4, 4).is_empty());
}

#[test]
fn top_and_left_edges_keep_their_pixel_centres() {
    let t = tri((128, 128), (1152, 128), (128, 1152));
    let samples = triangle(&t, 0, 5, 5);
    assert_eq!(
        pixels(&samples),
        vec![
            (0, 0),
            (1, 0),
            (2, 0),
            (3, 0),
            (0, 1),
            (1, 1),
            (2, 1),
            (0, 2),
            (1, 2),
            (0, 3)
        ]
    );
    assert_eq!(samples[0].weight_b, 0);
    assert_eq!(samples[0].weight_c, 0);
    assert_eq!(samples[0].weight_a, 1024 * 1024);
}

#[test]
fn bottom_and_right_edges_give_their_pixel_centres_away() {
    // The bottom edge runs along y = 1152 and the right edge along x = 1152,
    // both through pixel centres; the slanted edge faces up and left.
    let t = tri((1152, 1152), (128, 1152), (1152, 128));
    let samples = triangle(&t, 0, 5, 5);
    assert_eq!(pixels(&samples), vec![(3, 1), (2, 2), (3, 2), (1, 3), (2, 3), (3, 3)]);
    let t = tri((1152, 1152), (128, 1152), (1152, 1151));
    assert!(triangle(&t, 0, 5, 5).is_empty());
}

#[test]
fn two_halves_of_a_square_cover_each_pixel_once() {
    let upper = tri((0, 0), (1024, 0), (0, 1024));
    let lower = tri((1024, 0), (1024, 1024), (0, 1024));
    let mut all = pixels(&triangle(&upper, 0, 4, 4));
    let second = pixels(&triangle(&lower, 1, 4, 4));
    assert_eq!(second.len(), 10);
    all.extend(second);
    all.sort();
    let mut expected = Vec::new();
    for x in 0..4 {
        for y in 0..4 {
            expected.push((x, y));
        }
    }
    assert_eq!(all, expected);
}

#[test]
fn shared_edge_through_pixel_centres_is_covered_once() {
    let left = tri((128, 128), (1152, 1152), (128, 1152));
    let right = tri((128, 128), (1152, 128), (1152, 1152));
    let mut all = pixels(&triangle(&left, 0, 6, 6));
    all.extend(pixels(&triangle(&right, 1, 6, 6)));
    let before = all.len();
    all.sort();
    all.dedup();
    assert_eq!(all.len(), before);
    for k in 0..4 {
        assert!(all.contains(&(k, k)));
    }
}

#[test]
fn coverage_is_clipped_to_the_grid() {
    let t = tri((0, 0), (1024, 0), (0, 1024));
    assert_eq!(pixels(&triangle(&t, 0, 2, 2)), vec![(0, 0), (1, 0), (0, 1), (1, 1)]);
    assert_eq!(pixels(&triangle(&t, 0, 4, 1)), vec![(0, 0), (1, 0), (2, 0)]);
    assert!(triangle(&t, 0, 0, 4).is_empty());
    assert!(triangle(&t, 0, 4, 0).is_empty());
}

#[test]
fn triangle_reaching_outside_the_grid() {
    let t = tri((-512, -512), (1536, -512), (-512, 1536));
    assert_eq!(
        pixels(&triangle(&t, 0, 4, 4)),
        vec![(0, 0), (1, 0), (2, 0), (0, 1), (1, 1), (0, 2)]
    );
    let off = tri((-2048, -2048), (-1024, -2048), (-2048, -1024));
    assert!(triangle(&off, 0, 4, 4).is_empty());
    let beyond = tri((2048, 2048), (4096, 2048), (2048, 4096));
    assert!(triangle(&beyond, 0, 4, 4).is_empty());
}

#[test]
fn triangle_too_thin_to_hold_a_centre() {
    let t = tri((0, 0), (1024, 0), (0, 100));
    assert!(triangle(&t, 0, 4, 4).is_empty());
}

#[test]
fn extreme_coordinates_do_not_overflow() {
    let t = tri((i32::MIN, i32::MIN), (i32::MAX, i32::MIN), (0, i32::MAX));
    let samples = triangle(&t, 0, 3, 2);
    assert_eq!(pixels(&samples), vec![(0, 0), (1, 0), (2, 0), (0, 1), (1, 1), (2, 1)]);
    for s in &samples {
        assert!(s.weight_a > 0 && s.weight_b > 0 && s.weight_c > 0);
    }
}

#[test]
fn rasterize_of_nothing_is_nothing() {
    assert!(rasterize(&Vec::new(), 16, 16).is_empty());
    assert!(rasterize(&assemble(&Vec::new()), 16, 16).is_empty());
}

#[test]
fn rasterize_concatenates_triangle_by_triangle() {
    let triangles = vec![
        tri((0, 0), (1024, 0), (0, 1024)),
        tri((0, 0), (512, 512), (1024, 1024)),
        tri((1024, 0), (1024, 1024), (0, 1024)),
    ];
    let samples = rasterize(&triangles, 4, 4);
    let mut expected = triangle(&triangles[0], 0, 4, 4);
    expected.extend(triangle(&triangles[2], 2, 4, 4));
    assert_eq!(samples, expected);
    assert_eq!(samples.len(), 16);
    assert!(samples[..6].iter().all(|s| s.triangle == 0));
    assert!(samples[6..].iter().all(|s| s.triangle == 2));
}

#[test]
fn rasterizing_twice_gives_the_same_samples() {
    let triangles = vec![tri((13, 7), (2000, 333), (512, 1777))];
    assert_eq!(rasterize(&triangles, 8, 8), rasterize(&triangles, 8, 8));
}

fn project(v: [f64; 3], eye_z: f64, size: f64) -> (f64, f64) {
    let f = 1.0 / (std::f64::consts::PI / 6.0).tan();
    let w = eye_z - v[2];
    let ndc_x = f * v[0] / w;
    let ndc_y = f * v[1] / w;
    ((ndc_x + 1.0) * 0.5 * size, (1.0 - ndc_y) * 0.5 * size)
}

fn to_fixed(v: f64) -> i32 {
    (v * 256.0).round() as i32
}

#[test]
fn single_triangle_seen_from_the_front() {
    let world = [[0.0, 0.0, 0.0], [1.0, 0.0, 0.0], [0.0, 1.0, 0.0]];
    let normal = [0.0, 0.0, 1.0];
    let light = [0.0, 0.0, 5.0];
    let screen: Vec<(f64, f64)> = world.iter().map(|v| project(*v, 5.0, 100.0)).collect();
    let vertices: Vec<ScreenPoint> =
        screen.iter().map(|s| p(to_fixed(s.0), to_fixed(s.1))).collect();
    let triangles = assemble(&vertices);
    assert_eq!(triangles.len(), 1);
    let samples = rasterize(&triangles, 100, 100);
    assert!(!samples.is_empty());

    let min_x = screen.iter().map(|s| s.0).fold(f64::INFINITY, f64::min);
    let max_x = screen.iter().map(|s| s.0).fold(f64::NEG_INFINITY, f64::max);
    let min_y = screen.iter().map(|s| s.1).fold(f64::INFINITY, f64::min);
    let max_y = screen.iter().map(|s| s.1).fold(f64::NEG_INFINITY, f64::max);
    let slack = 1.0 / 256.0;
    for s in &samples {
        let cx = s.x as f64 + 0.5;
        let cy = s.y as f64 + 0.5;
        assert!(min_x - slack <= cx && cx <= max_x + slack);
        assert!(min_y - slack <= cy && cy <= max_y + slack);
    }

    let centroid = (
        (screen[0].0 + screen[1].0 + screen[2].0) / 3.0,
        (screen[0].1 + screen[1].1 + screen[2].1) / 3.0,
    );
    let nearest = samples
        .iter()
        .min_by(|l, r| {
            let dl = (l.x as f64 + 0.5 - centroid.0).powi(2) + (l.y as f64 + 0.5 - centroid.1).powi(2);
            let dr = (r.x as f64 + 0.5 - centroid.0).powi(2) + (r.y as f64 + 0.5 - centroid.1).powi(2);
            dl.partial_cmp(&dr).unwrap()
        })
        .unwrap();
    let sum = (nearest.weight_a + nearest.weight_b + nearest.weight_c) as f64;
    let w = [
        nearest.weight_a as f64 / sum,
        nearest.weight_b as f64 / sum,
        nearest.weight_c as f64 / sum,
    ];
    let mut position = [0.0; 3];
    for k in 0..3 {
        position[k] = w[0] * world[0][k] + w[1] * world[1][k] + w[2] * world[2][k];
    }
    let to_light = [light[0] - position[0], light[1] - position[1], light[2] - position[2]];
    let length = (to_light[0].powi(2) + to_light[1].powi(2) + to_light[2].powi(2)).sqrt();
    let intensity = ((to_light[0] * normal[0] + to_light[1] * normal[1] + to_light[2] * normal[2])
        / length)
        .clamp(0.0, 1.0);
    assert!(intensity > 0.0);
    assert!((w[0] + w[1] + w[2] - 1.0).abs() < 1e-12);
}

struct Lcg(u64);

impl Lcg {
    fn next(&mut self, span: i32) -> i32 {
        self.0 = self.0.wrapping_mul(6364136223846793005).wrapping_add(1442695040888963407);
        ((self.0 >> 33) % span as u64) as i32
    }

    fn point(&mut self) -> (i32, i32) {
        // Multiples of 64 put many vertices and edges exactly on pixel
        // centres, where the fill rule decides.
        (64 * self.next(40) - 256, 64 * self.next(40) - 256)
    }
}

fn area2(a: (i32, i32), b: (i32, i32), c: (i32, i32)) -> i64 {
    (b.0 - a.0) as i64 * (c.1 - a.1) as i64 - (b.1 - a.1) as i64 * (c.0 - a.0) as i64
}

#[test]
fn neighbours_never_cover_a_pixel_twice() {
    let mut rng = Lcg(7);
    let mut checked = 0;
    while checked < 300 {
        let (a, b, c, d) = (rng.point(), rng.point(), rng.point(), rng.point());
        let (left, right) = (area2(a, b, c), area2(a, b, d));
        if left == 0 || right == 0 || (left > 0) == (right > 0) {
            continue;
        }
        checked += 1;
        let mut all = pixels(&triangle(&tri(a, b, c), 0, 8, 8));
        all.extend(pixels(&triangle(&tri(a, b, d), 1, 8, 8)));
        let before = all.len();
        all.sort();
        all.dedup();
        assert_eq!(all.len(), before, "{:?} {:?} {:?} {:?}", a, b, c, d);
    }
}

#[test]
fn every_vertex_order_gives_the_same_pixels_and_weights() {
    let mut rng = Lcg(11);
    for _ in 0..200 {
        let (a, b, c) = (rng.point(), rng.point(), rng.point());
        let base = triangle(&tri(a, b, c), 0, 8, 8);
        let rotated = triangle(&tri(b, c, a), 0, 8, 8);
        let swapped = triangle(&tri(a, c, b), 0, 8, 8);
        assert_eq!(pixels(&base), pixels(&rotated));
        assert_eq!(pixels(&base), pixels(&swapped));
        for ((s, r), w) in base.iter().zip(rotated.iter()).zip(swapped.iter()) {
            assert_eq!((s.weight_a, s.weight_b, s.weight_c), (r.weight_c, r.weight_a, r.weight_b));
            assert_eq!((s.weight_a, s.weight_b, s.weight_c), (w.weight_a, w.weight_c, w.weight_b));
            assert_eq!(s.weight_a + s.weight_b + s.weight_c, area2(a, b, c).abs() as i128);
        }
    }
}

#[test]
fn covered_centres_lie_within_the_vertices() {
    let mut rng = Lcg(13);
    for _ in 0..200 {
        let (a, b, c) = (rng.point(), rng.point(), rng.point());
        for s in triangle(&tri(a, b, c), 0, 8, 8) {
            let (cx, cy) = (256 * s.x + 128, 256 * s.y + 128);
            assert!(a.0.min(b.0).min(c.0) <= cx && cx <= a.0.max(b.0).max(c.0));
            assert!(a.1.min(b.1).min(c.1) <= cy && cy <= a.1.max(b.1).max(c.1));
            assert!(0 <= s.x && s.x < 8 && 0 <= s.y && s.y < 8);
        }
    }
}
