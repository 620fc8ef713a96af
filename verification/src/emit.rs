//! Emission of a program tree as a flat byte image.

pub mod flatbin;
pub mod laws;
pub mod model;
