use wfc_field::pixel::{Hsl, Pixel};
use wfc_field::types::Rand;
use wfc_field::wfc_field::{jitter, pixels_agree, Cell, FrontierPolicy, WFCField};

fn blank(n: usize) -> Vec<Cell> {
    (0..n).map(|_| Cell::new()).collect()
}

fn sorted(mut v: Vec<(usize, usize)>) -> Vec<(usize, usize)> {
    v.sort();
    v
}

#[test]
fn centre_seed_one_epoch() {
    let mut f = WFCField::with_seed(blank(9), 3, (1, 1), Rand::new(7));
    assert_eq!(f.collapsed_cnt, 0);
    assert_eq!(f.frontier(), vec![(1, 1)]);
    f.epoch3();
    for x in 0..3 {
        for y in 0..3 {
            assert!(f.is_collapsed(x, y));
        }
    }
    assert_eq!(f.collapsed_cnt, 8);
    assert_eq!(
        sorted(f.frontier()),
        vec![(0, 0), (0, 1), (0, 2), (1, 0), (1, 2), (2, 0), (2, 1), (2, 2)]
    );
}

#[test]
fn new_field_has_single_seed() {
    let f = WFCField::new(10, Rand::new(3));
    assert_eq!(f.len(), 100);
    assert_eq!(f.collapsed_cnt, 0);
    assert_eq!(f.epoch_idx, 0);
    let front = f.frontier();
    assert_eq!(front.len(), 1);
    let (x, y) = front[0];
    assert!(x < 10 && y < 10);
    assert!(f.is_collapsed(x, y));
    assert_eq!(f.data.iter().filter(|c| c.collapsed).count(), 1);
    assert!(!f.is_done());
}

#[test]
fn ten_by_ten_finishes_within_bound() {
    for seed in 0..20u64 {
        let mut f = WFCField::new(10, Rand::new(seed));
        let mut epochs = 0;
        while !f.is_done() && epochs < 300 {
            f.epoch3();
            epochs += 1;
        }
        assert_eq!(f.collapsed_cnt, 99);
        assert!(f.is_done());
        assert!(f.data.iter().all(|c| c.collapsed));
    }
}

#[test]
fn counter_monotone_and_stable_when_done() {
    let mut f = WFCField::new(8, Rand::new(11));
    let mut prev = f.collapsed_cnt;
    let mut prev_collapsed: Vec<bool> = f.data.iter().map(|c| c.collapsed).collect();
    for _ in 0..60 {
        f.epoch3();
        assert!(f.collapsed_cnt >= prev);
        for (i, c) in f.data.iter().enumerate() {
            if prev_collapsed[i] {
                assert!(c.collapsed);
            }
        }
        prev = f.collapsed_cnt;
        prev_collapsed = f.data.iter().map(|c| c.collapsed).collect();
    }
    assert_eq!(f.collapsed_cnt, 63);
    let colours: Vec<[u8; 4]> = f.data.iter().map(|c| c.px.rgba).collect();
    f.run_epochs(10);
    assert_eq!(f.collapsed_cnt, 63);
    assert_eq!(f.data.iter().map(|c| c.px.rgba).collect::<Vec<_>>(), colours);
}

#[test]
fn epoch_counter_advances() {
    let mut f = WFCField::new(4, Rand::new(1));
    f.epoch3();
    f.epoch3();
    assert_eq!(f.epoch_idx, 2);
}

#[test]
fn first_epoch_variant_finishes() {
    let mut f = WFCField::new(10, Rand::new(21));
    for _ in 0..60 {
        f.epoch();
    }
    assert_eq!(f.collapsed_cnt, 99);
    assert!(f.frontier().is_empty());
}

#[test]
fn random_walk_epoch() {
    let mut f = WFCField::with_seed(blank(25), 5, (2, 2), Rand::new(9));
    f.epoch2();
    assert_eq!(f.collapsed_cnt, 8);
    let (x, y) = f.last;
    assert!((1..=3).contains(&x) && (1..=3).contains(&y) && (x, y) != (2, 2));
    assert_eq!(f.frontier(), vec![(2, 2)]);
}

#[test]
fn random_walk_on_single_cell_stays() {
    let mut f = WFCField::with_seed(blank(1), 1, (0, 0), Rand::new(9));
    f.epoch2();
    assert_eq!(f.last, (0, 0));
    assert_eq!(f.collapsed_cnt, 0);
}

#[test]
fn pressure_control_caps_frontier() {
    let mut f = WFCField::with_seed(blank(25), 5, (2, 2), Rand::new(4));
    f.set_policy(FrontierPolicy { threshold: 2, drop_percent: 0, cap: 3 });
    f.epoch3();
    let front = f.frontier();
    assert_eq!(front, vec![(1, 1), (1, 2), (1, 3)]);
}

#[test]
fn starvation_recovery_refills_with_uncollapsed() {
    let mut f = WFCField::with_seed(blank(25), 5, (2, 2), Rand::new(4));
    f.set_policy(FrontierPolicy { threshold: 2, drop_percent: 100, cap: 50 });
    f.epoch3();
    let front = f.frontier();
    assert_eq!(front.len(), 16);
    for w in front.windows(2) {
        assert!(w[0].0 * 5 + w[0].1 < w[1].0 * 5 + w[1].1);
    }
    for (x, y) in front {
        assert!(!f.is_collapsed(x, y));
        assert!(x == 0 || x == 4 || y == 0 || y == 4);
    }
}

#[test]
fn blank_entries_detected() {
    let mut f = WFCField::with_seed(blank(9), 3, (1, 1), Rand::new(2));
    assert!(!f.is_blank((1, 1)));
    f.epoch3();
    assert!(f.is_blank((1, 1)));
    assert!(f.is_blank((0, 0)));
}

#[test]
fn gen_value_needs_a_collapsed_neighbour() {
    let mut f = WFCField::with_seed(blank(25), 5, (0, 0), Rand::new(8));
    assert!(f.gen_value((4, 4)).is_none());
    let v = f.gen_value((1, 1)).unwrap();
    assert_eq!(v.s, 10000);
    assert!(v.h < 36000 && v.l <= 10000);
}

#[test]
fn jitter_wraps_hue_and_clamps_lightness() {
    assert_eq!(jitter(35000, 9500, 2000, 1000), Hsl { h: 1000, s: 10000, l: 10000 });
    assert_eq!(jitter(500, 300, -1000, -500), Hsl { h: 35500, s: 10000, l: 0 });
    assert_eq!(jitter(18000, 5000, 0, 0), Hsl { h: 18000, s: 10000, l: 5000 });
}

#[test]
fn new_with_data_keeps_buffer() {
    let mut data = blank(16);
    data[5].px.rgba = [0, 0, 0, 1];
    let f = WFCField::new_with_data(data, 4, Rand::new(17));
    assert_eq!(f.len(), 16);
    assert_eq!(f.data.iter().filter(|c| c.collapsed).count(), 1);
}

#[test]
fn init_adds_a_collapsed_seed() {
    let mut f = WFCField::with_seed(blank(16), 4, (0, 0), Rand::new(30));
    f.init();
    let front = f.frontier();
    assert!(front.contains(&(0, 0)));
    for (x, y) in front {
        assert!(f.is_collapsed(x, y));
    }
    assert_eq!(f.collapsed_cnt, 0);
}

#[test]
fn read_pixel_returns_seed_colour() {
    let f = WFCField::with_seed(blank(4), 2, (1, 0), Rand::new(12));
    assert_eq!(f.read_pixel(1, 0), f.data[2].px.rgba);
    assert_eq!(f.read_pixel(0, 0), [0, 0, 0, 1]);
}

#[test]
fn default_policy_values() {
    let p = FrontierPolicy::default();
    assert_eq!((p.threshold, p.drop_percent, p.cap), (100, 50, 100));
}

#[test]
fn pixels_agree_checks_buffers() {
    let mut data = blank(4);
    assert!(pixels_agree(&data));
    data[1].px.rgba = [10, 20, 30, 1];
    assert!(!pixels_agree(&data));
    data[1].px.hsl = Pixel::rgb2hsl(10, 20, 30);
    assert!(pixels_agree(&data));
    data[2].px.hsl = Hsl { h: 36000, s: 0, l: 0 };
    assert!(!pixels_agree(&data));
}

#[test]
fn init_appends_without_duplicates() {
    let mut f = WFCField::with_seed(blank(1), 1, (0, 0), Rand::new(30));
    f.init();
    assert_eq!(f.frontier(), vec![(0, 0)]);
    let mut g = WFCField::with_seed(blank(100), 10, (0, 0), Rand::new(30));
    let before = g.frontier();
    g.init();
    let after = g.frontier();
    assert_eq!(&after[..before.len()], &before[..]);
    assert!(after.len() == before.len() || after.len() == before.len() + 1);
    let last = after[after.len() - 1];
    assert!(g.is_collapsed(last.0, last.1));
}
