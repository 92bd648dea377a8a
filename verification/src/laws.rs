//! What holds of the library as a whole.
pub mod change;
pub mod choice;
pub mod harvest;
pub mod matching;
pub mod ordering;
pub mod place;
pub mod position;
pub mod records;
pub mod reproduction;
pub mod rule;
pub mod search;
pub mod steps;
pub mod tree;
pub mod versions;
pub mod wording;
