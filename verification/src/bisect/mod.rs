//! Finding the mods behind a failure by narrowing the build down.

pub mod search;
pub mod driver;
