//! A small pattern language of quantified character classes, compiled once
//! and matched against text with a breadth-style simulation of match states.

pub mod model;
pub mod syntax;
mod text;
pub mod regex;
pub mod laws;
pub mod token_iterator;
