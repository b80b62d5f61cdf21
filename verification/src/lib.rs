//! Heuristic detector for AI-generated text.
//!
//! The library scores raw text on a fixed-point scale and maps the score to a
//! categorical verdict. All percentages are carried as integers in
//! milli-percent: the value 50_000 stands for 50%. Remote classifier
//! confidences are carried in thousandths of a unit: 150 stands for 0.15.

pub mod analyzer;
pub mod remote;
pub mod text;
