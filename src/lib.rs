//! Dominant-colour palette extraction by k-means clustering over RGB samples.
//!
//! The engine runs Lloyd's algorithm on 8-bit colour samples with integer
//! arithmetic throughout: every step is a spec function, and the executable
//! code is proved to compute exactly that function.

pub mod color;
pub mod engine;
pub mod seeding;
pub mod palette;
pub mod cost;
