pub mod restore;
pub mod select;
