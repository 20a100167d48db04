use color_clusters::builder::Builder;
use color_clusters::clusters::Clusters;
use color_clusters::color::{color_diff, color_same, Color};
use color_clusters::grid::KeyingAction;
use color_clusters::image::ColorImage;
use color_clusters::runner::{ColorSpace, Runner, RunnerConfig, HIERARCHICAL_MAX};

fn black() -> Color {
    Color::new(0, 0, 0)
}

fn white() -> Color {
    Color::new(255, 255, 255)
}

fn square_image(outer: Color, inner: Color) -> ColorImage {
    let mut img = ColorImage::new_w_h(40, 40, outer);
    for y in 10..30 {
        for x in 10..30 {
            img.set_pixel(x, y, inner);
        }
    }
    img
}

fn two_tone_square(outer: Color) -> ColorImage {
    let mut img = square_image(outer, Color::new(200, 30, 30));
    for y in 10..30 {
        for x in 20..30 {
            img.set_pixel(x, y, Color::new(216, 30, 30));
        }
    }
    img
}

fn checkerboard(w: usize, h: usize, a: Color, b: Color) -> ColorImage {
    let mut img = ColorImage::new_w_h(w, h, a);
    for y in 0..h {
        for x in 0..w {
            if (x + y) % 2 == 1 {
                img.set_pixel(x, y, b);
            }
        }
    }
    img
}

fn run(config: RunnerConfig, img: ColorImage) -> Clusters {
    Runner::new(config, img).run()
}

fn assert_partition(cs: &Clusters) {
    let leaves = cs.leaves();
    let mut total = 0;
    for &l in leaves.iter() {
        total += cs.get(l).area;
    }
    assert_eq!(total, cs.width() * cs.height());
    for y in 0..cs.height() {
        for x in 0..cs.width() {
            let id = cs.cluster_at(x, y);
            assert!(cs.get(id).children.is_empty());
            assert_eq!(leaves.iter().filter(|&&l| l == id).count(), 1);
        }
    }
}

#[test]
fn color_diff_sums_channel_differences() {
    assert_eq!(color_diff(Color::new(10, 20, 30), Color::new(13, 15, 30)), 8);
    assert_eq!(color_diff(black(), white()), 765);
    assert_eq!(color_diff(white(), white()), 0);
}

#[test]
fn color_same_quantizes_channels() {
    assert!(color_same(Color::new(16, 0, 0), Color::new(31, 0, 0), 4, 0));
    assert!(!color_same(Color::new(15, 0, 0), Color::new(32, 0, 0), 4, 1));
    assert!(color_same(Color::new(15, 0, 0), Color::new(16, 0, 0), 4, 1));
    assert!(!color_same(Color::new(0, 0, 0), Color::new(0, 0, 2), 0, 1));
}

#[test]
fn color_same_is_symmetric() {
    let colors = [black(), white(), Color::new(12, 200, 77), Color::new(100, 99, 3)];
    for &a in colors.iter() {
        for &b in colors.iter() {
            for shift in 0..8 {
                for thres in 0..3 {
                    assert_eq!(color_same(a, b, shift, thres), color_same(b, a, shift, thres));
                }
            }
        }
    }
}

#[test]
fn default_config_values() {
    let c = RunnerConfig::default();
    assert!(!c.diagonal);
    assert_eq!(c.hierarchical, HIERARCHICAL_MAX);
    assert_eq!(c.batch_size, 25600);
    assert_eq!(c.good_min_area, 16);
    assert_eq!(c.good_max_area, 65536);
    assert_eq!(c.is_same_color_a, 4);
    assert_eq!(c.is_same_color_b, 1);
    assert_eq!(c.deepen_diff, 64);
    assert_eq!(c.hollow_neighbours, 1);
    assert_eq!(c.key_color, black());
    assert_eq!(c.keying_action, KeyingAction::Keep);
    assert_eq!(c.color_space, ColorSpace::RGB);
}

#[test]
fn uniform_four_by_four_is_one_cluster() {
    let img = ColorImage::new_w_h(4, 4, Color::new(40, 80, 120));
    let cs = run(RunnerConfig::default(), img);
    assert_eq!(cs.len(), 1);
    assert_eq!(cs.leaves(), vec![0]);
    let c = cs.get(0);
    assert_eq!(c.area, 16);
    assert_eq!(c.perimeter, 0);
    assert!(c.children.is_empty());
    assert!(c.parent.is_none());
    // no neighbours at all, which is within the default threshold of one
    assert!(cs.neighbours(0).is_empty());
    assert!(c.hollow);
    assert_partition(&cs);
}

#[test]
fn checkerboard_with_wide_tolerance_is_one_cluster() {
    let img = checkerboard(8, 8, black(), white());
    let config = RunnerConfig { is_same_color_b: 255, ..RunnerConfig::default() };
    let cs = run(config, img);
    assert_eq!(cs.len(), 1);
    assert_eq!(cs.get(0).area, 64);
    assert_partition(&cs);
}

#[test]
fn checkerboard_with_tight_tolerance_splits_every_pixel() {
    let img = checkerboard(4, 4, black(), white());
    let cs = run(RunnerConfig::default(), img);
    assert_eq!(cs.leaves().len(), 16);
    assert_partition(&cs);
}

#[test]
fn checkerboard_with_diagonals_gives_two_clusters() {
    let img = checkerboard(4, 4, black(), white());
    let config = RunnerConfig { diagonal: true, ..RunnerConfig::default() };
    let cs = run(config, img);
    assert_eq!(cs.leaves().len(), 2);
    assert_eq!(cs.get(0).area, 8);
    assert_eq!(cs.get(1).area, 8);
    assert_partition(&cs);
}

#[test]
fn enclosed_square_is_hollow() {
    let a = Color::new(200, 30, 30);
    let b = Color::new(20, 20, 220);
    let cs = run(RunnerConfig::default(), square_image(b, a));
    assert_eq!(cs.roots(), vec![0, 1]);
    assert_eq!(cs.leaves().len(), 2);
    let inner = cs.cluster_at(20, 20);
    let outer = cs.cluster_at(0, 0);
    assert_ne!(inner, outer);
    assert_eq!(cs.neighbours(inner), vec![outer]);
    assert_eq!(cs.get(inner).area, 400);
    assert_eq!(cs.get(outer).area, 1200);
    assert_eq!(cs.get(inner).perimeter, 80);
    assert!(cs.get(inner).hollow);
    assert_partition(&cs);
}

#[test]
fn enclosed_square_without_depth_has_two_flat_clusters() {
    let a = Color::new(200, 30, 30);
    let b = Color::new(20, 20, 220);
    let config = RunnerConfig { hierarchical: 0, ..RunnerConfig::default() };
    let cs = run(config, square_image(b, a));
    assert_eq!(cs.len(), 2);
    for id in 0..cs.len() {
        assert!(cs.get(id).parent.is_none());
        assert!(cs.get(id).children.is_empty());
    }
    assert_eq!(cs.get(cs.cluster_at(20, 20)).area, 400);
    assert_partition(&cs);
}

#[test]
fn contrasting_square_is_split_one_level() {
    let b = Color::new(20, 20, 220);
    let config = RunnerConfig { hierarchical: 1, ..RunnerConfig::default() };
    let cs = run(config, two_tone_square(b));
    assert_eq!(cs.len(), 4);
    assert_eq!(cs.roots(), vec![0, 1]);
    assert_eq!(cs.get(1).children, vec![2, 3]);
    assert!(cs.get(0).children.is_empty());
    assert_eq!(cs.get(2).parent, Some(1));
    assert_eq!(cs.get(3).parent, Some(1));
    assert_eq!(cs.get(1).area, 400);
    assert_eq!(cs.get(2).area, 200);
    assert_eq!(cs.get(3).area, 200);
    assert_eq!(cs.get(2).root, 1);
    assert_eq!(cs.get(3).root, 1);
    assert_eq!(cs.cluster_at(15, 15), 2);
    assert_eq!(cs.cluster_at(25, 15), 3);
    assert_partition(&cs);
}

#[test]
fn uniform_square_stays_a_leaf() {
    let a = Color::new(200, 30, 30);
    let b = Color::new(20, 20, 220);
    let cs = run(RunnerConfig::default(), square_image(b, a));
    assert_eq!(cs.len(), 2);
    assert!(cs.get(cs.cluster_at(20, 20)).hollow);
}

#[test]
fn area_outside_bounds_is_never_split() {
    let a = Color::new(200, 30, 30);
    let b = Color::new(20, 20, 220);
    let config = RunnerConfig { good_min_area: 400, good_max_area: 1200, ..RunnerConfig::default() };
    let cs = run(config, square_image(b, a));
    assert_eq!(cs.len(), 2);
    assert_partition(&cs);
}

#[test]
fn low_contrast_is_never_split() {
    let a = Color::new(100, 0, 0);
    let b = Color::new(140, 0, 0);
    let cs = run(RunnerConfig::default(), square_image(b, a));
    assert_eq!(cs.len(), 2);
}

#[test]
fn hollow_threshold_zero_clears_flag() {
    let a = Color::new(200, 30, 30);
    let b = Color::new(20, 20, 220);
    let config = RunnerConfig { hollow_neighbours: 0, hierarchical: 0, ..RunnerConfig::default() };
    let cs = run(config, square_image(b, a));
    assert!(!cs.get(cs.cluster_at(20, 20)).hollow);
}

#[test]
fn runs_are_deterministic() {
    let a = Color::new(200, 30, 30);
    let b = Color::new(20, 20, 220);
    let first = run(RunnerConfig::default(), square_image(b, a));
    let second = run(RunnerConfig::default(), square_image(b, a));
    assert_eq!(first, second);
}

#[test]
fn stepping_in_small_batches_matches_run() {
    let a = Color::new(200, 30, 30);
    let b = Color::new(20, 20, 220);
    let config = RunnerConfig { batch_size: 7, ..RunnerConfig::default() };
    let mut inc = Runner::new(config, square_image(b, a)).start();
    let mut steps = 0;
    while !inc.step() {
        steps += 1;
    }
    assert!(steps > 10);
    let stepped = inc.result();
    let whole = Runner::new(config, square_image(b, a)).run();
    assert_eq!(stepped, whole);
}

#[test]
fn zero_batch_still_progresses() {
    let config = RunnerConfig { batch_size: 0, ..RunnerConfig::default() };
    let mut inc = Runner::new(config, ColorImage::new_w_h(2, 2, white())).start();
    let mut steps = 0;
    while !inc.step() {
        steps += 1;
    }
    assert!(steps > 0);
    assert_eq!(inc.result().len(), 1);
}

#[test]
fn empty_image_has_no_clusters() {
    let cs = Runner::default().run();
    assert_eq!(cs.len(), 0);
    assert!(cs.leaves().is_empty());
}

#[test]
fn init_replaces_image() {
    let mut runner = Runner::default();
    runner.init(ColorImage::new_w_h(3, 2, white()));
    let cs = runner.run();
    assert_eq!(cs.len(), 1);
    assert_eq!(cs.get(0).area, 6);
}

#[test]
fn background_keying_gathers_key_pixels() {
    let key = Color::new(0, 255, 0);
    let mut img = ColorImage::new_w_h(5, 1, white());
    img.set_pixel(0, 0, key);
    img.set_pixel(4, 0, key);
    let config = RunnerConfig {
        key_color: key,
        keying_action: KeyingAction::Background,
        is_same_color_b: 255,
        ..RunnerConfig::default()
    };
    let cs = run(config, img);
    assert_eq!(cs.len(), 2);
    assert!(cs.get(0).reserved);
    assert_eq!(cs.get(0).area, 2);
    assert_eq!(cs.cluster_at(0, 0), 0);
    assert_eq!(cs.cluster_at(4, 0), 0);
    assert_eq!(cs.get(1).area, 3);
    assert_partition(&cs);
}

#[test]
fn discard_keying_keeps_key_pixels_apart() {
    let key = Color::new(0, 255, 0);
    let mut img = ColorImage::new_w_h(5, 1, white());
    img.set_pixel(0, 0, key);
    img.set_pixel(4, 0, key);
    let config = RunnerConfig {
        key_color: key,
        keying_action: KeyingAction::Discard,
        is_same_color_b: 255,
        ..RunnerConfig::default()
    };
    let cs = run(config, img);
    assert_eq!(cs.len(), 3);
    assert_eq!(cs.get(cs.cluster_at(2, 0)).area, 3);
    assert_ne!(cs.cluster_at(0, 0), cs.cluster_at(4, 0));
    let keep = run(RunnerConfig { keying_action: KeyingAction::Keep, ..config }, img_row(key));
    assert_eq!(keep.len(), 1);
}

fn img_row(key: Color) -> ColorImage {
    let mut img = ColorImage::new_w_h(5, 1, white());
    img.set_pixel(0, 0, key);
    img.set_pixel(4, 0, key);
    img
}

#[test]
fn perceptual_metric_is_supplied_by_caller() {
    let a = Color::new(200, 30, 30);
    let b = Color::new(20, 20, 220);
    let config = RunnerConfig { color_space: ColorSpace::Oklab, hierarchical: 1, ..RunnerConfig::default() };
    let never = Runner::new(config, square_image(b, a)).run_with(&|_x: Color, _y: Color| 0);
    assert_eq!(never.len(), 2);
    let always = Runner::new(config, two_tone_square(b)).run_with(&|_x: Color, _y: Color| 1000);
    assert_eq!(always.len(), 4);
    let never_two_tone = Runner::new(config, two_tone_square(b)).run_with(&|_x: Color, _y: Color| 0);
    assert_eq!(never_two_tone.len(), 2);
}

#[test]
fn builder_runs_like_runner() {
    let a = Color::new(200, 30, 30);
    let b = Color::new(20, 20, 220);
    let builder: Builder = Runner::new(RunnerConfig::default(), square_image(b, a)).builder();
    let cs = builder.run();
    assert_eq!(cs, run(RunnerConfig::default(), square_image(b, a)));
}

#[test]
fn middle_stripe_with_two_neighbours_is_not_hollow() {
    let mut img = ColorImage::new_w_h(9, 3, Color::new(250, 0, 0));
    for y in 0..3 {
        for x in 3..6 {
            img.set_pixel(x, y, Color::new(0, 250, 0));
        }
        for x in 6..9 {
            img.set_pixel(x, y, Color::new(0, 0, 250));
        }
    }
    let config = RunnerConfig { hierarchical: 0, ..RunnerConfig::default() };
    let cs = run(config, img);
    assert_eq!(cs.len(), 3);
    let left = cs.cluster_at(0, 0);
    let middle = cs.cluster_at(4, 1);
    let right = cs.cluster_at(8, 2);
    assert_eq!(cs.neighbours(middle), vec![left, right]);
    assert!(!cs.get(middle).hollow);
    assert!(cs.get(left).hollow);
    assert!(cs.get(right).hollow);
    assert_eq!(cs.get(middle).perimeter, 6);
}
