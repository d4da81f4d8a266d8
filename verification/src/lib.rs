//! Page assignment for photobooks: photos, ordered and grouped, are cut into
//! pages under size, group and page-count constraints.
//!
//! - `model`: photo groups, page assignments and solver parameters
//! - `feasibility`: the hard constraints of an assignment
//! - `perturbation`: shifting one cut point of an assignment
//! - `photo`: photos, group names and their order
//! - `start_solution`: the greedy start solution
//! - `page_problem`: the page assignment as a dynamic program
//! - `grid_cache`: the memo table of the dynamic program
//! - `mip`: reading an assignment out of a solution of the page program
//! - `book`: the finished photobook and the errors of the book solver
//! - `cover`: cover modes and the photos they place
//! - `ga`: building blocks of the genetic layout search
pub mod feasibility;
pub mod model;
pub mod perturbation;
pub mod photo;
pub mod start_solution;
pub mod page_problem;
pub mod mip;
pub mod book;
pub mod cover;
pub mod ga;
pub mod grid_cache;
