use fswww::resize::{img_resize, swizzle, Filter, RgbaImage};

#[test]
fn same_size_is_a_pure_swizzle() {
    let data = [10u8, 20, 30, 255].repeat(4);
    let img = RgbaImage { width: 4, height: 1, data: data.clone() };
    let out = img_resize(img, (4, 1), Filter::Lanczos3);
    assert_eq!(out, [30u8, 20, 10, 255].repeat(4));
}

#[test]
fn swizzle_twice_is_identity() {
    let orig: Vec<u8> = (0..64).collect();
    let mut buf = orig.clone();
    swizzle(&mut buf);
    assert_eq!(&buf[..4], &[2, 1, 0, 3]);
    swizzle(&mut buf);
    assert_eq!(buf, orig);
}

#[test]
fn other_size_is_resampled_to_target() {
    let data = [200u8, 100, 50, 255].repeat(4 * 4);
    let img = RgbaImage { width: 4, height: 4, data };
    let out = img_resize(img, (2, 3), Filter::Nearest);
    assert_eq!(out.len(), 4 * 2 * 3);
    assert_eq!(&out[..4], &[50, 100, 200, 255]);
}

#[test]
fn filter_names_round_trip() {
    for f in [Filter::Nearest, Filter::Triangle, Filter::CatmullRom, Filter::Gaussian, Filter::Lanczos3] {
        assert_eq!(Filter::from_name(&f.name()), Some(f));
    }
    assert_eq!(Filter::from_name(b"Lanczos3"), Some(Filter::Lanczos3));
    assert_eq!(Filter::from_name(b"lanczos3"), None);
    assert_eq!(Filter::from_name(b""), None);
}
