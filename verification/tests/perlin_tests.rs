use image_gen::generators::perlin_noise::{add_perlin_noise, generate_perlin_noise};
use image_gen::image::Image;

fn plus(a: f32, b: f32) -> f32 {
    a + b
}

#[test]
fn test_noise_is_added_per_pixel() {
    // 4x4 grid, 3x3 lattice: cells of 2x2 pixels cover the whole grid.
    let mut img: Image<f32> = Image::from_color(4, 4, 1.0);
    let value = |x: usize, y: usize| x as f32 + 10.0 * y as f32;
    add_perlin_noise(&mut img, 3, value, plus);
    for x in 0..4usize {
        for y in 0..4usize {
            assert_eq!(img.get(x as i64, y as i64), 1.0 + x as f32 + 10.0 * y as f32);
        }
    }
}

#[test]
fn test_ragged_border_is_untouched() {
    // 5x5 grid, 3x3 lattice: cells of 2x2 pixels; the last row and column
    // do not make a whole cell and keep their values.
    let mut img: Image<f32> = Image::from_color(5, 5, 2.0);
    let value = |_x: usize, _y: usize| 1.0f32;
    add_perlin_noise(&mut img, 3, value, plus);
    for x in 0..5i64 {
        for y in 0..5i64 {
            if x < 4 && y < 4 {
                assert_eq!(img.get(x, y), 3.0);
            } else {
                assert_eq!(img.get(x, y), 2.0);
            }
        }
    }
}

#[test]
fn test_generate_perlin_noise_midpoint() {
    let img: Image<f32> = generate_perlin_noise(4, 3, 0.5, |_x: usize, _y: usize| 0.0f32, plus);
    assert_eq!(img.width(), 4);
    assert_eq!(img.height(), 4);
    for x in 0..4i64 {
        for y in 0..4i64 {
            assert_eq!(img.get(x, y), 0.5);
        }
    }
}

/// A small deterministic generator for the test's gradient vectors.
struct Lcg(u64);

impl Lcg {
    fn next_unit(&mut self) -> f32 {
        self.0 = self.0.wrapping_mul(6364136223846793005).wrapping_add(1442695040888963407);
        ((self.0 >> 33) as f32 / (1u64 << 31) as f32) - 1.0
    }
}

fn lattice(grid_size: usize, seed: u64) -> Vec<Vec<(f32, f32)>> {
    let mut rng = Lcg(seed);
    let mut grid = Vec::new();
    for _ in 0..grid_size {
        let mut row = Vec::new();
        for _ in 0..grid_size {
            let (mut x, mut y) = (rng.next_unit(), rng.next_unit());
            while x * x + y * y > 1.0 || (x == 0.0 && y == 0.0) {
                x = rng.next_unit();
                y = rng.next_unit();
            }
            let len = (x * x + y * y).sqrt();
            row.push((x / len, y / len));
        }
        grid.push(row);
    }
    grid
}

fn lerp(a: f32, b: f32, t: f32) -> f32 {
    (b - a) * t + a
}

fn serp(a: f32, b: f32, t: f32) -> f32 {
    lerp(a, b, ((t - 0.5) * std::f32::consts::PI).sin() / 2.0 + 0.5)
}

fn gradient_value(grid: &[Vec<(f32, f32)>], cell: usize, scale: f32, x: usize, y: usize) -> f32 {
    let cx = x / cell;
    let cy = y / cell;
    let corner_nodes = [(cx, cy), (cx + 1, cy), (cx, cy + 1), (cx + 1, cy + 1)];
    let mut dots = [0.0f32; 4];
    for (i, corner) in corner_nodes.iter().enumerate() {
        let dx = (x as f32 - (corner.0 * cell) as f32) / cell as f32;
        let dy = (y as f32 - (corner.1 * cell) as f32) / cell as f32;
        let g = grid[corner.0][corner.1];
        dots[i] = (dx * g.0 + dy * g.1) * scale;
    }
    let tx = (x % cell) as f32 / cell as f32;
    let ty = (y % cell) as f32 / cell as f32;
    let i1 = serp(dots[0], dots[1], tx);
    let i2 = serp(dots[2], dots[3], tx);
    serp(i1, i2, ty)
}

#[test]
fn test_two_noise_layers_keep_mean_near_base() {
    let size: usize = 64;
    let grid_size: usize = 5;
    let cell = size / (grid_size - 1);
    let base = 0.5f32;
    let mut img: Image<f32> = Image::from_color(size, size, base);
    let grid_a = lattice(grid_size, 12345);
    let grid_b = lattice(grid_size, 98765);
    let value_a = |x: usize, y: usize| gradient_value(&grid_a, cell, 0.5, x, y);
    let value_b = |x: usize, y: usize| gradient_value(&grid_b, cell, 0.5, x, y);
    add_perlin_noise(&mut img, grid_size, value_a, plus);
    add_perlin_noise(&mut img, grid_size, value_b, plus);
    let mut sum = 0.0f64;
    for x in 0..size {
        for y in 0..size {
            sum += img.get(x as i64, y as i64) as f64;
        }
    }
    let mean = sum / (size * size) as f64;
    assert!((mean - base as f64).abs() < 0.1, "mean {} drifted from base {}", mean, base);
}
