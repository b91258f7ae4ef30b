use bsar::contour::{fraction, march, Coord, Field, Grid, Point};
use bsar::levels::{field_bounds, levels, rounded_levels};
use bsar::scene::PixelResolution;

fn grid(width: usize, height: usize, f: impl Fn(usize, usize) -> i64) -> Grid {
    let mut data = Vec::new();
    for y in 0..height {
        for x in 0..width {
            data.push(f(x, y));
        }
    }
    Grid::new(width, height, data).unwrap()
}

fn coord_value(c: &Coord) -> f64 {
    c.whole as f64 + c.num as f64 / c.den as f64
}

fn xy(p: &Point) -> (f64, f64) {
    (coord_value(&p.x), coord_value(&p.y))
}

fn hill(x: usize, y: usize) -> i64 {
    let dx = x as i64 - 10;
    let dy = y as i64 - 10;
    10_000 - 40 * (dx * dx + dy * dy)
}

fn cross(o: (f64, f64), a: (f64, f64), b: (f64, f64)) -> f64 {
    (a.0 - o.0) * (b.1 - o.1) - (a.1 - o.1) * (b.0 - o.0)
}

fn convex_hull(points: &[(f64, f64)]) -> Vec<(f64, f64)> {
    let mut pts = points.to_vec();
    pts.sort_by(|a, b| a.partial_cmp(b).unwrap());
    pts.dedup();
    let mut lower: Vec<(f64, f64)> = Vec::new();
    for &p in &pts {
        while lower.len() >= 2 && cross(lower[lower.len() - 2], lower[lower.len() - 1], p) <= 0.0 {
            lower.pop();
        }
        lower.push(p);
    }
    let mut upper: Vec<(f64, f64)> = Vec::new();
    for &p in pts.iter().rev() {
        while upper.len() >= 2 && cross(upper[upper.len() - 2], upper[upper.len() - 1], p) <= 0.0 {
            upper.pop();
        }
        upper.push(p);
    }
    lower.pop();
    upper.pop();
    lower.extend(upper);
    lower
}

fn inside_hull(hull: &[(f64, f64)], p: (f64, f64)) -> bool {
    (0..hull.len()).all(|i| cross(hull[i], hull[(i + 1) % hull.len()], p) > 0.0)
}

#[test]
fn fraction_interpolates_between_samples() {
    assert_eq!(fraction(5, 0, 10), (5, 10));
    assert_eq!(fraction(5, 10, 0), (5, 10));
    assert_eq!(fraction(3, 1, 9), (2, 8));
    assert_eq!(fraction(3, 9, 1), (6, 8));
}

#[test]
fn fraction_clamps_and_handles_equal_samples() {
    assert_eq!(fraction(-4, 0, 10), (0, 1));
    assert_eq!(fraction(0, 0, 10), (0, 1));
    assert_eq!(fraction(12, 0, 10), (1, 1));
    assert_eq!(fraction(12, 10, 0), (0, 1));
    assert_eq!(fraction(-1, 10, 0), (1, 1));
    assert_eq!(fraction(7, 3, 3), (1, 2));
}

#[test]
fn fraction_on_extreme_samples() {
    assert_eq!(fraction(0, i64::MIN, i64::MAX), ((1u64 << 63), u64::MAX));
}

#[test]
fn grid_rejects_wrong_sample_count() {
    assert!(Grid::new(3, 2, vec![0; 5]).is_none());
    assert!(Grid::new(3, 2, vec![0; 6]).is_some());
    let g = grid(3, 2, |x, y| (10 * y + x) as i64);
    assert_eq!(g.dimensions(), (3, 2));
    assert_eq!(g.z_at(2, 1), 12);
}

#[test]
fn empty_and_uniform_fields_have_no_contours() {
    let empty = Grid::new(0, 0, vec![]).unwrap();
    assert!(march(&empty, 0).is_empty());
    let line = grid(5, 1, |x, _| x as i64);
    assert!(march(&line, 2).is_empty());
    let flat = grid(6, 6, |_, _| 7);
    assert!(march(&flat, 7).is_empty());
    assert!(march(&flat, 3).is_empty());
}

#[test]
fn single_peak_gives_one_closed_diamond() {
    let g = grid(3, 3, |x, y| if x == 1 && y == 1 { 10 } else { 0 });
    let cs = march(&g, 5);
    assert_eq!(cs.len(), 1);
    let c = &cs[0];
    assert_eq!(c.len(), 5);
    assert_eq!(c[0], c[4]);
    let mut pts: Vec<(f64, f64)> = c[..4].iter().map(xy).collect();
    pts.sort_by(|a, b| a.partial_cmp(b).unwrap());
    assert_eq!(pts, vec![(0.5, 1.0), (1.0, 0.5), (1.0, 1.5), (1.5, 1.0)]);
}

#[test]
fn single_cells_emit_expected_segments() {
    // bottom-left corner alone above the threshold: one segment, bottom edge to left edge
    let g = grid(2, 2, |x, y| if x == 0 && y == 1 { 4 } else { 0 });
    let cs = march(&g, 1);
    assert_eq!(cs.len(), 1);
    let pts: Vec<(f64, f64)> = cs[0].iter().map(xy).collect();
    assert_eq!(pts, vec![(0.75, 1.0), (0.0, 0.25)]);
    // top-left alone: left edge to top edge
    let g = grid(2, 2, |x, y| if x == 0 && y == 0 { 4 } else { 0 });
    let pts: Vec<(f64, f64)> = march(&g, 2)[0].iter().map(xy).collect();
    assert_eq!(pts, vec![(0.0, 0.5), (0.5, 0.0)]);
}

#[test]
fn saddle_cells_use_the_fixed_pair() {
    // saddle with top-right and bottom-left above
    let g = grid(2, 2, |x, y| if x != y { 2 } else { 0 });
    let mut cs: Vec<Vec<(f64, f64)>> = march(&g, 1).iter().map(|c| c.iter().map(xy).collect()).collect();
    cs.sort_by(|a, b| a.partial_cmp(b).unwrap());
    assert_eq!(cs, vec![vec![(0.5, 0.0), (0.0, 0.5)], vec![(0.5, 1.0), (1.0, 0.5)]]);
    // saddle with top-left and bottom-right above
    let g = grid(2, 2, |x, y| if x == y { 2 } else { 0 });
    let mut cs: Vec<Vec<(f64, f64)>> = march(&g, 1).iter().map(|c| c.iter().map(xy).collect()).collect();
    cs.sort_by(|a, b| a.partial_cmp(b).unwrap());
    assert_eq!(cs, vec![vec![(0.0, 0.5), (0.5, 1.0)], vec![(1.0, 0.5), (0.5, 0.0)]]);
}

#[test]
fn open_curve_across_the_field_stays_in_one_piece() {
    // a ramp along x: the contour at 25 is a vertical line crossing the whole field
    let g = grid(6, 8, |x, _| 10 * x as i64);
    let cs = march(&g, 25);
    assert_eq!(cs.len(), 1);
    let c = &cs[0];
    assert_eq!(c.len(), 8);
    for p in c {
        assert_eq!(xy(p).0, 2.5);
    }
    let ys: Vec<f64> = c.iter().map(|p| xy(p).1).collect();
    assert!(ys == (0..8).map(|y| y as f64).collect::<Vec<_>>() || ys == (0..8).rev().map(|y| y as f64).collect::<Vec<_>>());
}

#[test]
fn framing_closes_every_contour() {
    let g = grid(21, 21, hill);
    let framed = g.framed(10_000);
    assert_eq!(framed.dimensions(), (21, 21));
    assert_eq!(framed.z_at(0, 7), 10_001);
    assert_eq!(framed.z_at(10, 10), 10_000);
    for z in [4_010, 6_010, 9_010] {
        let cs = march(&framed, z);
        assert!(!cs.is_empty());
        for c in &cs {
            assert!(c.len() >= 4);
            assert_eq!(c[0], c[c.len() - 1]);
        }
    }
}

#[test]
fn hill_gives_nested_closed_rings() {
    let g = grid(21, 21, hill);
    let (lo, hi) = field_bounds(&g).unwrap();
    assert_eq!((lo, hi), (2_000, 10_000));
    let framed = g.framed(lo - 1);
    // thresholds that no sample equals, so that no ring passes through a sample
    let zs = levels(lo + 20, hi - 20, 4);
    assert_eq!(zs, vec![2_020, 4_673, 7_326, 9_980]);
    let mut rings: Vec<Vec<(f64, f64)>> = Vec::new();
    for &z in &zs {
        let cs = march(&framed, z);
        assert_eq!(cs.len(), 1, "level {}", z);
        let c = &cs[0];
        assert_eq!(c[0], c[c.len() - 1]);
        rings.push(c.iter().map(xy).collect());
    }
    for w in rings.windows(2) {
        let hull = convex_hull(&w[0]);
        for &p in &w[1] {
            assert!(inside_hull(&hull, p));
        }
    }
    assert!(march(&framed, 10_000).is_empty());
}

#[test]
fn levels_are_evenly_spaced_and_rounded_down() {
    assert_eq!(levels(0, 10, 2), vec![0, 10]);
    assert_eq!(levels(0, 10, 3), vec![0, 5, 10]);
    assert_eq!(levels(0, 10, 4), vec![0, 3, 6, 10]);
    assert_eq!(levels(-7, -7, 3), vec![-7, -7, -7]);
    assert_eq!(levels(i64::MIN, i64::MAX, 2), vec![i64::MIN, i64::MAX]);
}

#[test]
fn field_bounds_scans_every_sample() {
    let g = grid(4, 3, |x, y| (x as i64 - 2) * (y as i64 + 1));
    assert_eq!(field_bounds(&g), Some((-6, 3)));
    assert_eq!(field_bounds(&Grid::new(0, 5, vec![]).unwrap()), None);
}

#[test]
fn pixel_resolution_ground_flag() {
    assert!(PixelResolution::Ground.is_ground());
    assert!(!PixelResolution::Slant.is_ground());
}

#[test]
fn rounded_levels_snap_to_whole_units() {
    assert_eq!(rounded_levels(-1_500, 2_500, 1_000, 3), vec![-1_000, 500, 2_000]);
    assert_eq!(rounded_levels(1_000, 4_000, 1_000, 4), vec![1_000, 2_000, 3_000, 4_000]);
    assert_eq!(rounded_levels(-2_999, -1, 1_000, 2), vec![-2_000, -1_000]);
    assert!(rounded_levels(1_200, 1_800, 1_000, 3).is_empty());
    assert_eq!(rounded_levels(i64::MIN, i64::MAX, 1_000_000, 2), vec![-9_223_372_036_854_000_000, 9_223_372_036_854_000_000]);
}

#[test]
fn fields_on_one_side_of_the_threshold_give_nothing() {
    let below = grid(7, 5, |x, y| (x + y) as i64);
    assert!(march(&below, 100).is_empty());
    let above = grid(7, 5, |x, y| 50 + (x * y) as i64);
    assert!(march(&above, 49).is_empty());
    let thin = grid(1, 9, |_, y| y as i64);
    assert!(march(&thin, 4).is_empty());
}

#[test]
fn every_segment_is_used_once() {
    // two separate peaks and a ridge give several polylines; each crossing point of
    // the field appears in exactly one segment pair
    let g = grid(9, 6, |x, y| match (x, y) {
        (2, 2) | (6, 3) => 10,
        (_, 5) => 10,
        _ => 0,
    });
    let cs = march(&g, 5);
    let segments: usize = cs.iter().map(|c| c.len() - 1).sum();
    // each peak is surrounded by a 4-segment ring; the bottom ridge crosses
    // the field with one segment per column of cells
    assert_eq!(segments, 4 + 4 + 8);
    assert!(cs.iter().all(|c| c.len() >= 2));
    let closed = cs.iter().filter(|c| c[0] == c[c.len() - 1]).count();
    assert_eq!(closed, 2);
}

#[test]
fn framed_contours_close_even_through_samples() {
    // thresholds equal to sample values: rings may touch themselves at a sample
    // and come out as several loops, but every loop closes
    let g = grid(21, 21, hill);
    for z in [3_600, 6_000, 6_800, 8_400, 9_960] {
        for framed in [g.framed(1_000), g.framed(20_000)] {
            let cs = march(&framed, z);
            assert!(!cs.is_empty(), "level {}", z);
            for c in &cs {
                assert_eq!(c[0], c[c.len() - 1], "level {}", z);
            }
        }
    }
    let cs = march(&g.framed(1_000), 6_800);
    assert!(cs.len() > 1);
}
