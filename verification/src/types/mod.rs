pub mod color;
pub mod data_type;
pub mod vector;
