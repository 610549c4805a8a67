use image_gen::generators::diamond_square::{
    apply_diamond_square, check_diamond_square_size, generate_diamond_square,
    partition_progression, Partition,
};
use image_gen::image::Image;

fn average(_pass: usize, a: f32, b: f32, c: f32, d: f32) -> f32 {
    (a + b + c + d) / 4.0
}

#[test]
fn test_partition_coordinates() {
    let p = Partition::from(1, 2, 4);
    assert_eq!(p.min_x, 4);
    assert_eq!(p.max_x, 8);
    assert_eq!(p.min_y, 8);
    assert_eq!(p.max_y, 12);
    assert_eq!(p.mid_x, 6);
    assert_eq!(p.mid_y, 10);
    assert_eq!(p.corners(), [(4, 8), (4, 12), (8, 8), (8, 12)]);
    assert_eq!(p.sides(), [(4, 10), (6, 8), (6, 12), (8, 10)]);
}

#[test]
fn test_size_check_rejects_non_power_of_two_plus_one() {
    assert!(!check_diamond_square_size(8, 8));
    assert!(!check_diamond_square_size(0, 0));
    assert!(!check_diamond_square_size(1, 1));
    assert!(!check_diamond_square_size(4, 4));
    assert!(!check_diamond_square_size(9, 8));
    assert!(check_diamond_square_size(2, 2));
    assert!(check_diamond_square_size(3, 3));
    assert!(check_diamond_square_size(5, 5));
    assert!(check_diamond_square_size(9, 9));
    assert!(check_diamond_square_size(1025, 1025));
}

#[test]
fn test_partition_progression_doubles() {
    assert_eq!(partition_progression(2), Vec::<i64>::new());
    assert_eq!(partition_progression(3), vec![1]);
    assert_eq!(partition_progression(5), vec![1, 2]);
    assert_eq!(partition_progression(9), vec![1, 2, 4]);
    assert_eq!(partition_progression(17), vec![1, 2, 4, 8]);
}

#[test]
fn test_zero_variance_keeps_constant_grid() {
    let mut img: Image<f32> = Image::from_color(5, 5, 1.0);
    apply_diamond_square(&mut img, average);
    for x in 0..5i64 {
        for y in 0..5i64 {
            assert_eq!(img.get(x, y), 1.0);
        }
    }
}

#[test]
fn test_zero_variance_larger_grid() {
    let mut img: Image<f32> = Image::from_color(17, 17, 0.25);
    apply_diamond_square(&mut img, average);
    for x in 0..17i64 {
        for y in 0..17i64 {
            assert_eq!(img.get(x, y), 0.25);
        }
    }
}

#[test]
fn test_corner_cells_untouched() {
    let offset = |_pass: usize, a: f32, b: f32, c: f32, d: f32| (a + b + c + d) / 4.0 + 10.0;
    let mut img: Image<f32> = Image::from_color(5, 5, 0.25);
    apply_diamond_square(&mut img, offset);
    assert_eq!(img.get(0, 0), 0.25);
    assert_eq!(img.get(4, 0), 0.25);
    assert_eq!(img.get(0, 4), 0.25);
    assert_eq!(img.get(4, 4), 0.25);
    // The first pass writes the grid's centre from the four corners.
    assert_eq!(img.get(2, 2), 10.25);
    // The first pass's edge midpoints average two corners, the new centre
    // and a wrapped border cell, then add the offset.
    assert_eq!(img.get(0, 2), 12.75);
    assert_eq!(img.get(2, 0), 12.75);
    assert_eq!(img.get(2, 4), 12.75);
    assert_eq!(img.get(4, 2), 12.75);
    // The second pass's block centres average one corner, two first-pass
    // midpoints and the first-pass centre.
    assert_eq!(img.get(1, 1), 19.0);
}

#[test]
fn test_exact_values_on_smallest_grid() {
    // One pass over a 3x3 grid with a single raised corner, averaging with
    // no offset. The diamond step writes the centre; the square step then
    // visits the four edge midpoints in order, each reading its four
    // cardinal neighbours with toroidal wrap, midpoints written earlier in
    // the same pass included.
    let mut img: Image<f32> = Image::from_color(3, 3, 0.0);
    img.set(0, 0, 4.0);
    apply_diamond_square(&mut img, average);
    assert_eq!(img.get(0, 0), 4.0);
    assert_eq!(img.get(1, 1), 1.0);
    assert_eq!(img.get(0, 1), 1.25);
    assert_eq!(img.get(1, 0), 1.25);
    assert_eq!(img.get(1, 2), 0.5625);
    assert_eq!(img.get(2, 1), 0.5625);
    assert_eq!(img.get(0, 2), 0.0);
    assert_eq!(img.get(2, 0), 0.0);
    assert_eq!(img.get(2, 2), 0.0);
}

#[test]
fn test_shared_edge_midpoints_written_once() {
    // 5x5 grid, two passes. First pass: 1 centre + 4 edge midpoints.
    // Second pass: 4 centres, and of the 16 block edge midpoints 4 are
    // shared between adjacent blocks, so 12 distinct writes. 21 in all.
    let count = std::cell::Cell::new(0u32);
    let counting = |_pass: usize, a: f32, b: f32, c: f32, d: f32| {
        count.set(count.get() + 1);
        (a + b + c + d) / 4.0
    };
    let mut img: Image<f32> = Image::from_color(5, 5, 0.0);
    apply_diamond_square(&mut img, counting);
    assert_eq!(count.get(), 21);
}

#[test]
fn test_generate_diamond_square_constant() {
    let img: Image<f32> = generate_diamond_square(9, 0.5, average);
    assert_eq!(img.width(), 9);
    assert_eq!(img.height(), 9);
    for x in 0..9i64 {
        for y in 0..9i64 {
            assert_eq!(img.get(x, y), 0.5);
        }
    }
}
