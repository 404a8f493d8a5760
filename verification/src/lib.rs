//! Runtime values of a units-aware calculator: a tagged value paired with a
//! physical unit, the algebra of units, and the text each of them is shown as.

pub mod algebra;
pub mod decimal;
pub mod listing;
pub mod name;
pub mod number;
pub mod text;
pub mod unit;
pub mod value;
