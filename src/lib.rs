pub mod column;
pub mod dataset;
pub mod engine;
pub mod num;
pub mod text;
