use mandelbrot_tiles::cache::TileCache;
use mandelbrot_tiles::mandelbrot::{Mandelbrot, CENTER_LIMIT, MIN_ZOOM, TILE_SIZE};
use mandelbrot_tiles::palette::{color_for, interior, Rgba, PALETTE_SIZE};
use mandelbrot_tiles::square::Square;
use rand::rngs::StdRng;
use rand::SeedableRng;

fn test_palette() -> Vec<Rgba> {
    (0..PALETTE_SIZE)
        .map(|i| Rgba { r: i as u8, g: 1, b: 2, a: 255 })
        .collect()
}

fn escape_iterations(re: f64, im: f64, max_iter: u32) -> u32 {
    let (mut zr, mut zi) = (0.0f64, 0.0f64);
    for n in 1..=max_iter {
        let r = (zr + zi) * (zr - zi) + re;
        let i = 2.0 * zr * zi + im;
        zr = r;
        zi = i;
        if zr * zr + zi * zi >= 4.0 {
            return n;
        }
    }
    0
}

fn float_eval(x: i128, y: i128, zoom: u64, max_iter: u32) -> u32 {
    let step = 1.0 / zoom as f64;
    escape_iterations(x as f64 * step, y as f64 * step, max_iter)
}

// Every pixel of a tile as a probe: the full image whenever one escapes.
fn all_positions(size: u32) -> Vec<(u32, u32)> {
    let mut v = Vec::new();
    for y in 0..size {
        for x in 0..size {
            v.push((x, y));
        }
    }
    v
}

// Escapes everywhere, with a count that depends on the point.
fn stripes(x: i128, y: i128, _zoom: u64, _max_iter: u32) -> u32 {
    ((x + 2 * y).rem_euclid(7) + 1) as u32
}

#[test]
fn color_for_zero_is_black() {
    let p = test_palette();
    assert_eq!(color_for(0, &p), Rgba { r: 0, g: 0, b: 0, a: 255 });
    assert_eq!(interior(), Rgba { r: 0, g: 0, b: 0, a: 255 });
}

#[test]
fn color_for_picks_slot_three_times_mod_161() {
    let p = test_palette();
    assert_eq!(color_for(1, &p), p[3]);
    assert_eq!(color_for(54, &p), p[1]);
    assert_eq!(color_for(161, &p), p[0]);
    assert_eq!(color_for(u32::MAX, &p), p[79]);
}

#[test]
fn color_for_is_always_opaque() {
    let clear: Vec<Rgba> = (0..PALETTE_SIZE)
        .map(|i| Rgba { r: i as u8, g: 4, b: 5, a: 0 })
        .collect();
    assert_eq!(color_for(1, &clear), Rgba { r: 3, g: 4, b: 5, a: 255 });
    assert_eq!(color_for(0, &clear), Rgba { r: 0, g: 0, b: 0, a: 255 });
}

#[test]
fn color_for_is_deterministic() {
    let p = test_palette();
    for it in [0u32, 1, 2, 100, 5000] {
        assert_eq!(color_for(it, &p), color_for(it, &p));
    }
}

#[test]
fn square_new_keeps_fields() {
    let s = Square::new(-96, 48, 200, 48, 800);
    assert_eq!((s.x, s.y, s.zoom, s.size, s.max_iter), (-96, 48, 200, 48, 800));
}

#[test]
fn draw_probes_twelfth_of_area_in_tile() {
    let s = Square::new(0, 0, 200, 48, 100);
    let mut rng = StdRng::seed_from_u64(7);
    let probes = s.draw_probes(&mut rng);
    assert_eq!(probes.len(), 48 * 48 / 12);
    assert!(probes.iter().all(|&(x, y)| x < 48 && y < 48));
    let distinct: std::collections::HashSet<_> = probes.iter().collect();
    assert!(distinct.len() > 1);
}

#[test]
fn render_with_escaping_probes_fills_every_pixel() {
    let p = test_palette();
    let s = Square::new(10, -4, 1, 3, 50);
    let img = s.render_probed(&vec![(0, 0)], &stripes, &p);
    assert_eq!(img.len(), 9);
    for py in 0..3i128 {
        for px in 0..3i128 {
            let v = stripes(10 + px, -4 + py, 1, 50);
            assert_eq!(img[(px + py * 3) as usize], color_for(v, &p));
        }
    }
}

#[test]
fn tiny_tile_without_probes_is_uniform_black() {
    let p = test_palette();
    let s = Square::new(0, 0, 1, 3, 50);
    let mut rng = StdRng::seed_from_u64(1);
    assert!(s.draw_probes(&mut rng).is_empty());
    let img = s.calculate_square(&mut rng, &stripes, &p);
    assert_eq!(img, vec![interior(); 9]);
    assert_eq!(s.render_probed(&vec![], &stripes, &p), vec![interior(); 9]);
}

#[test]
fn render_with_interior_probes_is_uniform_black() {
    let p = test_palette();
    let s = Square::new(0, 0, 1, 4, 50);
    // Interior only at pixel (1, 1); the probes all land there.
    let eval = |x: i128, y: i128, _z: u64, _m: u32| -> u32 {
        if x == 1 && y == 1 { 0 } else { 9 }
    };
    let img = s.render_probed(&vec![(1, 1), (1, 1)], &eval, &p);
    assert_eq!(img, vec![interior(); 16]);
}

#[test]
fn render_with_an_escaping_probe_is_full() {
    let p = test_palette();
    let s = Square::new(0, 0, 1, 4, 50);
    let eval = |x: i128, y: i128, _z: u64, _m: u32| -> u32 {
        if x == 1 && y == 1 { 0 } else { 9 }
    };
    let img = s.render_probed(&vec![(1, 1), (2, 3)], &eval, &p);
    assert_eq!(img.len(), 16);
    assert_eq!(img[1 + 4], interior());
    assert_eq!(img[2 + 3 * 4], color_for(9, &p));
    assert_eq!(img[0], color_for(9, &p));
}

#[test]
fn render_of_empty_tile_is_empty() {
    let p = test_palette();
    let s = Square::new(0, 0, 0, 0, 50);
    let mut rng = StdRng::seed_from_u64(1);
    assert!(s.calculate_square(&mut rng, &float_eval, &p).is_empty());
}

#[test]
fn render_matches_float_evaluator() {
    let p = test_palette();
    let s = Square::new(-240, 0, 200, 48, 200);
    let img = s.render_probed(&all_positions(48), &float_eval, &p);
    assert_eq!(img.len(), 48 * 48);
    assert_eq!(img[5 + 7 * 48], color_for(float_eval(-235, 7, 200, 200), &p));
}

#[test]
fn render_same_probes_twice_is_identical() {
    let p = test_palette();
    let s = Square::new(-240, 0, 200, 48, 200);
    let mut rng = StdRng::seed_from_u64(3);
    let probes = s.draw_probes(&mut rng);
    let a = s.render_probed(&probes, &float_eval, &p);
    let b = s.render_probed(&probes, &float_eval, &p);
    assert_eq!(a, b);
}

#[test]
fn progressive_misclassification_rate_is_small() {
    // About 5% of this tile's pixels escape; with 192 probes a trial
    // misses all of them with probability near 0.95^192.
    let p = test_palette();
    let s = Square::new(-240, 0, 200, 48, 200);
    let full = s.render_probed(&all_positions(48), &float_eval, &p);
    let escaping = full.iter().filter(|c| **c != interior()).count();
    assert!(escaping > 0 && escaping < full.len());
    let mut misclassified = 0;
    for seed in 0..100u64 {
        let mut rng = StdRng::seed_from_u64(seed);
        let img = s.calculate_square(&mut rng, &float_eval, &p);
        if img != full {
            assert!(img.iter().all(|c| *c == interior()));
            misclassified += 1;
        }
    }
    assert!(misclassified <= 1);
}

#[test]
fn cache_insert_get_and_replace() {
    let mut c = TileCache::new();
    assert_eq!(c.len(), 0);
    let k = Square::new(0, 0, 200, 48, 800);
    let img = vec![interior(); 4];
    c.insert(k, img.clone());
    assert!(c.contains_key(&k));
    assert_eq!(c.get(&k), Some(&img));
    assert_eq!(c.len(), 1);
    let other = vec![Rgba { r: 1, g: 2, b: 3, a: 255 }; 4];
    c.insert(k, other.clone());
    assert_eq!(c.len(), 1);
    assert_eq!(c.get(&k), Some(&other));
    assert_eq!(c.get(&Square::new(48, 0, 200, 48, 800)), None);
}

#[test]
fn cache_merge_again_is_idempotent() {
    let p = test_palette();
    let k = Square::new(-240, 0, 200, 48, 200);
    let mut c = TileCache::new();
    c.insert(k, k.render_probed(&all_positions(48), &float_eval, &p));
    let before = c.get(&k).cloned();
    c.insert(k, k.render_probed(&all_positions(48), &float_eval, &p));
    assert_eq!(c.len(), 1);
    assert_eq!(c.get(&k).cloned(), before);
    assert_eq!(c.keys(), vec![k]);
}

#[test]
fn cache_retain_level_prunes_other_levels() {
    let mut c = TileCache::new();
    let a = Square::new(0, 0, 200, 48, 800);
    let b = Square::new(0, 0, 266, 48, 800);
    let d = Square::new(48, 0, 200, 48, 1600);
    let e = Square::new(48, 48, 200, 48, 800);
    for k in [a, b, d, e] {
        c.insert(k, vec![]);
    }
    c.retain_level(200, 800);
    assert_eq!(c.len(), 2);
    assert!(c.contains_key(&a) && c.contains_key(&e));
    assert!(!c.contains_key(&b) && !c.contains_key(&d));
}

#[test]
fn new_viewport_clamps_center() {
    let m = Mandelbrot::new(10, 20, 800, i64::MAX, i64::MIN, 200);
    assert_eq!((m.center_x, m.center_y), (CENTER_LIMIT, -CENTER_LIMIT));
    assert_eq!(m.squares.len(), 0);
    assert!(!m.finished_frame);
}

#[test]
fn zoom_one_step_scales_by_133_percent() {
    let mut m = Mandelbrot::new(100, 100, 800, 0, 0, 200);
    m.zoom(1, 10, 20);
    assert_eq!(m.zoom, 266);
    assert_eq!((m.center_x, m.center_y), (3, 6));
    m.zoom(-1, 0, 0);
    assert_eq!(m.zoom, 200);
}

#[test]
fn zoom_keeps_pivot_point() {
    let mut m = Mandelbrot::new(100, 100, 800, -100, 40, 200);
    m.zoom(2, -30, 25);
    // 200 -> 266 -> 353
    assert_eq!(m.zoom, 353);
    // (-100 * 353) / 200 = -176 (toward zero), (-30 * 153) / 200 = -22
    assert_eq!(m.center_x, -176 - 22);
    // (40 * 353) / 200 = 70, (25 * 153) / 200 = 19
    assert_eq!(m.center_y, 70 + 19);
}

#[test]
fn zoom_rounds_once_per_command() {
    // 11 * 1.33^2 = 19.46; rounding after each step would give 18.
    let mut m = Mandelbrot::new(100, 100, 800, 0, 0, 11);
    m.zoom(2, 0, 0);
    assert_eq!(m.zoom, 19);
    // 200 * 1.33^12: 200 * 1.33^9 = 2604.32 -> 2604, then * 1.33^3 -> 6126
    let mut big = Mandelbrot::new(100, 100, 800, 0, 0, 200);
    big.zoom(12, 0, 0);
    assert_eq!(big.zoom, 6126);
    big.zoom(400, 0, 0);
    assert_eq!(big.zoom, u64::MAX);
}

#[test]
fn zoom_out_is_floored() {
    let mut m = Mandelbrot::new(100, 100, 800, 0, 0, 200);
    m.zoom(-100, 0, 0);
    assert_eq!(m.zoom, MIN_ZOOM);
}

#[test]
fn resize_doubles_zoom_with_height() {
    let mut m = Mandelbrot::new(1000, 800, 800, 0, 0, 200);
    m.change_size(1000, 1600);
    assert_eq!(m.zoom, 400);
    assert_eq!((m.center_x, m.center_y), (0, 0));
    assert_eq!((m.width, m.height), (1000, 1600));
}

#[test]
fn resize_keeps_center_point() {
    let mut m = Mandelbrot::new(1000, 800, 800, 300, -151, 200);
    let before = (m.center_x as f64 / m.zoom as f64, m.center_y as f64 / m.zoom as f64);
    m.change_size(900, 1300);
    let after = (m.center_x as f64 / m.zoom as f64, m.center_y as f64 / m.zoom as f64);
    assert_eq!(m.zoom, 325);
    assert!((before.0 - after.0).abs() < 0.01);
    assert!((before.1 - after.1).abs() < 0.01);
}

#[test]
fn resize_with_rounded_zoom_keeps_center_point() {
    let mut m = Mandelbrot::new(1000, 800, 800, 100000, -40000, 200);
    m.change_size(1000, 801);
    // 200 * 801 / 800 = 200.25 rounds to 200: the center stays put.
    assert_eq!(m.zoom, 200);
    assert_eq!((m.center_x, m.center_y), (100000, -40000));
    m.change_size(1000, 1203);
    // 200 * 1203 / 801 = 300.37 -> 300; center scaled by 300 / 200
    assert_eq!(m.zoom, 300);
    assert_eq!((m.center_x, m.center_y), (150000, -60000));
}

#[test]
fn resize_to_zero_height_keeps_camera() {
    let mut m = Mandelbrot::new(1000, 800, 800, 5, 6, 200);
    m.change_size(10, 0);
    assert_eq!((m.zoom, m.center_x, m.center_y), (200, 5, 6));
    assert_eq!((m.width, m.height), (10, 0));
}

#[test]
fn pan_round_trip_restores_center() {
    let p = test_palette();
    let mut rng = StdRng::seed_from_u64(5);
    let mut m = Mandelbrot::new(100, 100, 50, -100, 0, 200);
    m.step(1000, &mut rng, &stripes, &p);
    let count = m.squares.len();
    m.move_center(123, -77);
    assert_eq!((m.center_x, m.center_y), (23, -77));
    assert_eq!(m.squares.len(), count);
    m.move_center(-123, 77);
    assert_eq!((m.center_x, m.center_y), (-100, 0));
    assert_eq!(m.squares.len(), count);
}

#[test]
fn pan_beyond_two_to_62_is_exact() {
    let big: i64 = (1 << 62) + 1;
    let mut m = Mandelbrot::new(100, 100, 50, 0, 0, 200);
    m.move_center(big, -big);
    assert_eq!((m.center_x, m.center_y), (big, -big));
    m.move_center(-big, big);
    assert_eq!((m.center_x, m.center_y), (0, 0));
    let keys = Mandelbrot::new(100, 100, 50, CENTER_LIMIT, -CENTER_LIMIT, 200).required_keys();
    assert!(keys.len() >= 16);
    assert!(keys.iter().all(|k| k.x > CENTER_LIMIT - 200 && k.y < -CENTER_LIMIT + 200));
}

#[test]
fn resize_of_large_center_is_exact() {
    let c: i64 = (1 << 61) + 1;
    let mut m = Mandelbrot::new(100, 1, 50, c, -c, 1);
    m.change_size(100, 3);
    assert_eq!(m.zoom, 3);
    assert_eq!((m.center_x, m.center_y), (3 * c, -3 * c));
}

#[test]
fn pan_is_clamped() {
    let mut m = Mandelbrot::new(100, 100, 50, 0, 0, 200);
    m.move_center(i64::MAX, i64::MIN);
    assert_eq!((m.center_x, m.center_y), (CENTER_LIMIT, -CENTER_LIMIT));
}

#[test]
fn iterations_are_floored_and_capped() {
    let mut m = Mandelbrot::new(100, 100, 800, 0, 0, 200);
    m.increase_max_iter(800);
    assert_eq!(m.max_iter, 1600);
    m.increase_max_iter(-2000);
    assert_eq!(m.max_iter, 100);
    let mut big = Mandelbrot::new(100, 100, u32::MAX - 5, 0, 0, 200);
    big.increase_max_iter(100);
    assert_eq!(big.max_iter, u32::MAX);
}

#[test]
fn reset_restores_defaults_and_clears() {
    let p = test_palette();
    let mut rng = StdRng::seed_from_u64(5);
    let mut m = Mandelbrot::new(100, 100, 50, 7, 8, 300);
    m.step(1000, &mut rng, &stripes, &p);
    assert!(m.squares.len() > 0);
    m.reset();
    assert_eq!((m.center_x, m.center_y, m.zoom, m.max_iter), (-100, 0, 200, 1600));
    assert_eq!((m.width, m.height), (100, 100));
    assert_eq!(m.squares.len(), 0);
}

#[test]
fn required_keys_cover_view_with_slack() {
    let m = Mandelbrot::new(100, 100, 800, 0, 0, 200);
    let keys = m.required_keys();
    assert_eq!(keys.len(), 16);
    let xs: Vec<i64> = keys.iter().filter(|k| k.y == -96).map(|k| k.x).collect();
    assert_eq!(xs, vec![-96, -48, 0, 48]);
    assert!(keys.iter().all(|k| k.zoom == 200 && k.size == TILE_SIZE && k.max_iter == 800));
    assert_eq!(m.missing_keys().len(), 16);
}

#[test]
fn required_keys_positive_top() {
    let m = Mandelbrot::new(96, 48, 800, 148, 50, 200);
    // top = (100, 26), right and bottom edges 196 and 74;
    // start = (100 - 4 - 48, 26 - 26 - 48) = (48, -48)
    let keys = m.required_keys();
    let mut xy: Vec<(i64, i64)> = keys.iter().map(|k| (k.x, k.y)).collect();
    xy.sort();
    let mut expected = Vec::new();
    for x in [48, 96, 144, 192] {
        for y in [-48, 0, 48] {
            expected.push((x, y));
        }
    }
    assert_eq!(xy, expected);
}

#[test]
fn zoom_scenario_replaces_required_keys() {
    let p = test_palette();
    let mut rng = StdRng::seed_from_u64(11);
    let mut m = Mandelbrot::new(100, 100, 50, 0, 0, 200);
    for _ in 0..16 {
        m.step(1, &mut rng, &stripes, &p);
    }
    assert!(m.finished_frame);
    let before = m.required_keys();
    m.zoom(1, 0, 0);
    assert_eq!(m.zoom, 266);
    let after = m.required_keys();
    assert_ne!(before, after);
    assert!(after.iter().all(|k| !before.contains(k)));
    assert!(after.iter().all(|k| !m.squares.contains_key(k)));
    assert_eq!(m.missing_keys().len(), after.len());
}

#[test]
fn stale_zoom_tiles_kept_until_frame_completes() {
    let p = test_palette();
    let mut rng = StdRng::seed_from_u64(11);
    let mut m = Mandelbrot::new(100, 100, 50, 0, 0, 200);
    m.step(1000, &mut rng, &stripes, &p);
    assert!(m.finished_frame);
    assert_eq!(m.squares.len(), 16);
    m.zoom(1, 0, 0);
    let needed = m.missing_keys().len();
    m.step(1, &mut rng, &stripes, &p);
    assert!(!m.finished_frame);
    assert_eq!(m.squares.len(), 17);
    m.step(needed, &mut rng, &stripes, &p);
    assert!(m.finished_frame);
    assert_eq!(m.squares.len(), needed);
    assert!(m.squares.keys().iter().all(|k| k.zoom == 266));
}

#[test]
fn scheduler_converges_within_missing_count_calls() {
    let p = test_palette();
    let mut rng = StdRng::seed_from_u64(2);
    let mut m = Mandelbrot::new(100, 100, 50, 0, 0, 200);
    let n = m.missing_keys().len();
    assert_eq!(n, 16);
    for call in 1..=n {
        m.step(1, &mut rng, &stripes, &p);
        assert_eq!(m.missing_keys().len(), n - call);
        assert_eq!(m.finished_frame, call == n);
    }
    assert_eq!(m.squares.len(), n);
}

#[test]
fn scheduler_budget_three() {
    let p = test_palette();
    let mut rng = StdRng::seed_from_u64(2);
    let mut m = Mandelbrot::new(100, 100, 50, 0, 0, 200);
    let mut calls = 0;
    while !m.finished_frame {
        m.step(3, &mut rng, &stripes, &p);
        calls += 1;
    }
    assert_eq!(calls, 6);
    assert_eq!(m.missing_keys().len(), 0);
}

#[test]
fn scheduler_never_recomputes_cached_tiles() {
    let p = test_palette();
    let mut rng = StdRng::seed_from_u64(2);
    let mut m = Mandelbrot::new(100, 100, 50, 0, 0, 200);
    m.step(4, &mut rng, &stripes, &p);
    let first = m.squares.keys();
    let images: Vec<Vec<Rgba>> = first.iter().map(|k| m.squares.get(k).unwrap().clone()).collect();
    let other = |_x: i128, _y: i128, _z: u64, _m: u32| -> u32 { 2 };
    m.step(4, &mut rng, &other, &p);
    for (k, img) in first.iter().zip(images.iter()) {
        assert_eq!(m.squares.get(k), Some(img));
    }
    assert_eq!(m.squares.len(), 8);
}

#[test]
fn scheduler_stores_each_tile_under_its_own_key() {
    let p = test_palette();
    let mut rng = StdRng::seed_from_u64(9);
    let mut m = Mandelbrot::new(100, 100, 50, 0, 0, 200);
    m.step(1000, &mut rng, &stripes, &p);
    for k in m.required_keys() {
        let img = m.squares.get(&k).unwrap();
        assert_eq!(img, &k.render_probed(&all_positions(48), &stripes, &p));
    }
}

#[test]
fn calculate_mandelbrot_makes_progress() {
    let p = test_palette();
    let mut rng = StdRng::seed_from_u64(4);
    let mut m = Mandelbrot::new(100, 100, 50, 0, 0, 200);
    let n = m.missing_keys().len();
    let mut calls = 0;
    while !m.finished_frame {
        m.calculate_mandelbrot(&mut rng, &stripes, &p);
        calls += 1;
        assert!(calls <= n);
    }
    assert_eq!(m.missing_keys().len(), 0);
}

#[test]
fn scheduler_picks_missing_tiles_in_random_order() {
    let p = test_palette();
    let first_required = Mandelbrot::new(100, 100, 50, 0, 0, 200).required_keys()[0];
    let mut firsts = Vec::new();
    for seed in 0..20u64 {
        let mut rng = StdRng::seed_from_u64(seed);
        let mut m = Mandelbrot::new(100, 100, 50, 0, 0, 200);
        m.step(1, &mut rng, &stripes, &p);
        let keys = m.squares.keys();
        assert_eq!(keys.len(), 1);
        firsts.push(keys[0]);
    }
    assert!(firsts.iter().any(|k| *k != first_required));
}
