//! Metaheuristic optimization building blocks: solutions, variation and
//! neighborhood operators, selection and memory policies, and the discrete
//! bookkeeping used by the search algorithms.
pub mod comparison;
pub mod experiment;
pub mod nsga2;
pub mod observer;
pub mod operator;
pub mod permutation;
pub mod problem;
pub mod quality_text;
pub mod run;
pub mod search;
pub mod solution;
pub mod termination;
pub mod text;
