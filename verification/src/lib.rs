pub mod chunk;
pub mod error;
pub mod filters;
pub mod image;
pub mod png;
pub mod qoi;
pub mod utils;
