pub mod color;
pub mod number;
pub mod vector;
