pub mod behind;
pub mod ending;
pub mod recursive;
pub mod walk;
