use rust_raytracer::material::{Lambertian, NormalBased};
use rust_raytracer::RGB;

#[test]
fn rgb_add_sums_channels() {
    let a = RGB { r: 10, g: 20, b: 30 };
    let b = RGB { r: 1, g: 2, b: 3 };
    assert_eq!(a.add(b), RGB { r: 11, g: 22, b: 33 });
}

#[test]
fn rgb_add_up_to_full_channel() {
    let a = RGB { r: 200, g: 0, b: 128 };
    let b = RGB { r: 55, g: 255, b: 127 };
    assert_eq!(a.add(b), RGB { r: 255, g: 255, b: 255 });
}

#[test]
fn rgb_add_commutes_on_example() {
    let a = RGB { r: 5, g: 60, b: 7 };
    let b = RGB { r: 100, g: 3, b: 90 };
    assert_eq!(a.add(b), b.add(a));
}

#[test]
fn rgb_add_associates_on_example() {
    let a = RGB { r: 5, g: 60, b: 7 };
    let b = RGB { r: 100, g: 3, b: 90 };
    let c = RGB { r: 1, g: 1, b: 1 };
    assert_eq!(a.add(b).add(c), a.add(b.add(c)));
}

#[test]
fn rgb_add_black_is_identity() {
    let a = RGB { r: 204, g: 61, b: 61 };
    assert_eq!(a.add(RGB::default()), a);
}

#[test]
fn lambertian_keeps_its_color() {
    let c = RGB { r: 204, g: 61, b: 61 };
    let l = Lambertian::new(c);
    assert_eq!(l.color(), c);
}

#[test]
fn normal_based_is_constructible() {
    let _n = NormalBased {};
}
