use wfc_field::pixel::{Hsl, Pixel, PixelType};
use wfc_field::types::Rand;

#[test]
fn rgb2hsl_primaries() {
    assert_eq!(Pixel::rgb2hsl(255, 0, 0), Hsl { h: 0, s: 10000, l: 5000 });
    assert_eq!(Pixel::rgb2hsl(0, 255, 0), Hsl { h: 12000, s: 10000, l: 5000 });
    assert_eq!(Pixel::rgb2hsl(0, 0, 255), Hsl { h: 24000, s: 10000, l: 5000 });
}

#[test]
fn rgb2hsl_grey_extremes() {
    assert_eq!(Pixel::rgb2hsl(0, 0, 0), Hsl { h: 0, s: 0, l: 0 });
    assert_eq!(Pixel::rgb2hsl(255, 255, 255), Hsl { h: 0, s: 0, l: 10000 });
    assert_eq!(Pixel::rgb2hsl(100, 100, 100), Hsl { h: 0, s: 0, l: 3922 });
}

#[test]
fn rgb2hsl_hue_wraps_below_zero() {
    // red is largest and blue exceeds green: the hue lies just under a full turn
    assert_eq!(Pixel::rgb2hsl(255, 0, 255).h, 30000);
    assert_eq!(Pixel::rgb2hsl(255, 0, 128).h, 32988);
}

#[test]
fn rgb2hsl_mixed_colour() {
    assert_eq!(Pixel::rgb2hsl(128, 64, 32), Hsl { h: 2000, s: 6000, l: 3137 });
}

#[test]
fn rgb2hsl_bounds_all_channels() {
    let mut r: u32 = 0;
    while r < 256 {
        let mut g: u32 = 0;
        while g < 256 {
            let mut b: u32 = 0;
            while b < 256 {
                let c = Pixel::rgb2hsl(r as u8, g as u8, b as u8);
                assert!(c.h < 36000 && c.s <= 10000 && c.l <= 10000);
                b += 17;
            }
            g += 5;
        }
        r += 3;
    }
}

#[test]
fn hsl2rgb_primaries() {
    assert_eq!(Pixel::hsl2rgb(0, 10000, 5000), [255, 0, 0, 1]);
    assert_eq!(Pixel::hsl2rgb(12000, 10000, 5000), [0, 255, 0, 1]);
    assert_eq!(Pixel::hsl2rgb(24000, 10000, 5000), [0, 0, 255, 1]);
}

#[test]
fn hsl2rgb_white_and_black() {
    assert_eq!(Pixel::hsl2rgb(0, 0, 10000), [255, 255, 255, 1]);
    assert_eq!(Pixel::hsl2rgb(18000, 10000, 0), [0, 0, 0, 1]);
}

#[test]
fn round_trip_within_quantisation() {
    let c = Pixel::rgb2hsl(128, 64, 32);
    let back = Pixel::hsl2rgb(c.h, c.s, c.l);
    assert_eq!(back, [127, 63, 31, 1]);
    assert!((back[0] as i32 - 128).abs() <= 1);
    assert!((back[1] as i32 - 64).abs() <= 1);
    assert!((back[2] as i32 - 32).abs() <= 1);
}

#[test]
fn hsl2rgb_bounds_over_grid() {
    let mut h: u32 = 0;
    while h < 36000 {
        let mut s: u32 = 0;
        while s <= 10000 {
            let mut l: u32 = 0;
            while l <= 10000 {
                let c = Pixel::hsl2rgb(h, s, l);
                assert_eq!(c[3], 1);
                l += 625;
            }
            s += 2500;
        }
        h += 1500;
    }
}

#[test]
fn pixel_new_is_black() {
    let p = Pixel::new();
    assert_eq!(p.rgba, [0, 0, 0, 1]);
    assert_eq!(p.hsl, Hsl { h: 0, s: 0, l: 0 });
}

#[test]
fn pixel_random_agrees() {
    let mut rng = Rand::new(5);
    let p = Pixel::random(&mut rng);
    assert_eq!(p.rgba[3], 1);
    assert_eq!(p.hsl, Pixel::rgb2hsl(p.rgba[0], p.rgba[1], p.rgba[2]));
}

#[test]
fn set_data_rgba_derives_hsl() {
    let mut p = Pixel::new();
    p.set_data(PixelType::RGBA([0, 0, 255, 1]));
    assert_eq!(p.rgba, [0, 0, 255, 1]);
    assert_eq!(p.hsl, Hsl { h: 24000, s: 10000, l: 5000 });
}

#[test]
fn set_data_hsl_derives_rgba() {
    let mut p = Pixel::new();
    p.set_data(PixelType::HSL(Hsl { h: 12000, s: 10000, l: 5000 }));
    assert_eq!(p.hsl, Hsl { h: 12000, s: 10000, l: 5000 });
    assert_eq!(p.rgba, [0, 255, 0, 1]);
}

#[test]
fn lightness_survives_round_trip() {
    let rgb = Pixel::hsl2rgb(12750, 1309, 3745);
    assert_eq!(rgb, [82, 107, 86, 1]);
    assert_eq!(Pixel::rgb2hsl(82, 107, 86).l, 3706);
    let mut h: u32 = 0;
    while h < 36000 {
        let mut s: u32 = 0;
        while s <= 10000 {
            let mut l: u32 = 0;
            while l <= 10000 {
                let c = Pixel::hsl2rgb(h, s, l);
                let back = Pixel::rgb2hsl(c[0], c[1], c[2]);
                assert!((back.l as i64 - l as i64).abs() * 255 <= 10000, "h {} s {} l {}", h, s, l);
                l += 37;
            }
            s += 500;
        }
        h += 450;
    }
}
