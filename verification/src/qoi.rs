pub mod chunk;
pub mod frame;
