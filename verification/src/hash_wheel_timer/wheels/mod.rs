//! The wheels themselves, leaves first.

pub mod byte_wheel;
pub mod cancellable;
pub mod clock;
pub mod model;
pub mod quad_wheel;
