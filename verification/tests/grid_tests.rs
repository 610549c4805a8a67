use image_gen::image::{GridError, Image};

#[test]
fn test_create_fills_every_cell() {
    let img: Image<i32> = Image::create(4, 3, 7).unwrap();
    assert_eq!(img.width(), 4);
    assert_eq!(img.height(), 3);
    for x in 0..4i64 {
        for y in 0..3i64 {
            assert_eq!(img.get(x, y), 7);
        }
    }
}

#[test]
fn test_create_rejects_zero_dimensions() {
    let r: Result<Image<i32>, GridError> = Image::create(0, 5, 1);
    assert!(matches!(r, Err(GridError::InvalidDimension)));
    let r: Result<Image<i32>, GridError> = Image::create(5, 0, 1);
    assert!(matches!(r, Err(GridError::InvalidDimension)));
}

#[test]
fn test_set_then_get() {
    let mut img: Image<i32> = Image::from_color(4, 4, 0);
    img.set(2, 3, 42);
    assert_eq!(img.get(2, 3), 42);
    assert_eq!(img.get(2, 2), 0);
    assert_eq!(img.get(3, 3), 0);
}

#[test]
fn test_negative_coordinates_wrap() {
    let mut img: Image<i32> = Image::from_color(4, 3, 0);
    img.set(-1, -1, 9);
    assert_eq!(img.get(3, 2), 9);
    img.set(0, 0, 5);
    assert_eq!(img.get(-4, -3), 5);
    assert_eq!(img.get(4, 3), 5);
}

#[test]
fn test_toroidal_addressing() {
    let mut img: Image<i32> = Image::from_color(4, 3, 0);
    let mut v = 0;
    for x in 0..4i64 {
        for y in 0..3i64 {
            img.set(x, y, v);
            v += 1;
        }
    }
    for x in 0..4i64 {
        for y in 0..3i64 {
            for k in [-3i64, -1, 0, 1, 2, 5] {
                assert_eq!(img.get(x, y), img.get(x + k * 4, y + k * 3));
            }
        }
    }
}
