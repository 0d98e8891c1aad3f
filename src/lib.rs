//! Minimum-cost alignment of two sequences with template switches, the cost
//! model it is priced by, and a renderer for the aligned sequences.
pub mod alignment_type;
pub mod character;
pub mod cost;
pub mod cost_function;
pub mod decimal;
pub mod inner;
pub mod renderer;
pub mod search;
pub mod sequence;
pub mod strategies;
pub mod strings;
pub mod text;
pub mod walk;
