pub mod common;
pub mod selection;
