pub mod filters;
pub mod frame;
