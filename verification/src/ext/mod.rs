pub mod map;
pub mod raw;
pub mod walk;
