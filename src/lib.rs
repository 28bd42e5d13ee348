//! A genetic search for the multi-unit knapsack problem: integer product
//! quantities are decomposed into power-of-two genes, candidate solutions are
//! kept feasible by repair, and a generational loop with elitism and
//! stagnation restarts tracks the best solution found.
pub mod crossover;
pub mod evolution;
pub mod individual;
pub mod knapsack;
pub mod model;
pub mod population;
pub mod problem;
pub mod random;
pub mod report;
pub mod text;
