use wfc_field::types::Rand;

#[test]
fn next_u32_from_zero_seed() {
    let mut r = Rand::new(0);
    assert_eq!(r.next_u32(), 335903614);
    assert_eq!(r.state, 1442695040888963407);
    assert_eq!(r.next_u32(), 436792849);
}

#[test]
fn same_seed_same_draws() {
    let mut a = Rand::new(99);
    let mut b = Rand::new(99);
    for _ in 0..50 {
        assert_eq!(a.gen_rangei32(-20, 20), b.gen_rangei32(-20, 20));
    }
}

#[test]
fn gen_rangei32_stays_in_range() {
    let mut r = Rand::new(1234);
    for _ in 0..1000 {
        let v = r.gen_rangei32(-2000, 2000);
        assert!((-2000..2000).contains(&v));
    }
}

#[test]
fn gen_index_exact_and_in_range() {
    let mut r = Rand::new(42);
    assert_eq!(r.gen_index(10), 5);
    for _ in 0..500 {
        assert!(r.gen_index(7) < 7);
    }
}

#[test]
fn gen_rangei32_maps_draw_affinely() {
    // the draw 335903614 out of 2^32 lands at 335903614 * 40 / 2^32 - 20
    let mut r = Rand::new(0);
    assert_eq!(r.gen_rangei32(-20, 20), -17);
}
