//! An in-memory grading store: students, subjects, grades, reports and
//! summary statistics, with every operation verified against a model.
//!
//! Grades are fixed-point values in hundredths of a point (`8850` is 88.5).
//! Averages are returned as exact fractions.
pub mod keyed;
pub mod laws;
pub mod names;
pub mod ratio;
pub mod stats;
pub mod store;
pub mod text;

pub use ratio::Ratio;
pub use stats::{sort_grades, Stats};
pub use store::{GradingSystem, Student, Subject};
