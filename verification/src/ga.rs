//! Building blocks of the genetic algorithm that the layout search uses.
use vstd::prelude::*;

verus! {

/// What the evaluation of a genome into its phenotype needs to know.
pub trait Context: Clone + Send + Sync {

}

/// The genetic operators on slicing trees.
#[derive(Debug, Clone, Copy, PartialEq, Eq)]
pub struct TreeOperators;

} // verus!
