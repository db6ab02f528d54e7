//! An evolutionary solver for the 0/1 knapsack problem, with its candidate
//! bookkeeping, greedy seeding, genetic operators and local improvement steps
//! specified and verified.

pub mod problem;
pub mod candidate;
mod rng;
pub mod order;
pub mod greedy;
pub mod repair;
pub mod search;
pub mod population;
pub mod climb;
pub mod anneal;

pub use anneal::{
    anneal_step, annealing_iterations, keep_best, propose_swap, swap_budget_for, AnnealStep, Proposal,
};
pub use candidate::Candidate;
pub use climb::{exhaustive_hill_climb, exhaustive_hill_climb_budgeted};
pub use greedy::{density_order, greedy_fill};
pub use population::{
    best_items, crossover, evaluate, initialize, mutate, next_generation, select, EvolutionConfig,
};
pub use problem::{Item, KnapsackProblem};
pub use repair::{repair, selected_indices};
pub use search::{local_search, swap_items};
