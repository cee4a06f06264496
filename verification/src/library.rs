pub mod results;
pub mod utility;
pub mod common;
pub mod input;
