//! A demand-propagation engine over a crafting production graph.
//!
//! A catalog holds named ingredients and, for some of them, the single recipe
//! that produces them from other ingredients. Given a target ingredient and a
//! desired output rate, the engine computes how many concurrent producers and
//! what rate of every upstream ingredient are needed, either as a demand tree
//! or as aggregated per-ingredient totals. A builder edits the catalog while
//! keeping the recipe graph acyclic and each recipe's inputs distinct.
//!
//! Quantities and rates are exact non-negative rationals ([`rat::Ratio`]), so
//! every result is stated and proved as an equation, not an approximation.

pub mod calc;
pub mod cycle;
pub mod data;
pub mod rat;
pub mod recipe_builder;
