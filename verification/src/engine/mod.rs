pub mod cycles;
pub mod evaluation;
pub mod graph;
pub mod input_field;
pub mod laws;
pub mod lists;
pub mod node;
pub mod order;
pub mod output_pin;
pub mod pin;
pub mod ports;
pub mod removal;
pub mod sorting;
