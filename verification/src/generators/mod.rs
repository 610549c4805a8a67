pub mod diamond_square;
pub mod perlin_noise;

pub use diamond_square::generate_diamond_square;
pub use perlin_noise::{generate_perlin_noise, add_perlin_noise};
