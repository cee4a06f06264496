pub mod paths;
pub mod disk;
pub mod selection;
pub mod compare;
