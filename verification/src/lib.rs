pub mod datetime;
pub mod debt;
pub mod digits;
pub mod edf;
pub mod error;
pub mod greedy;
pub mod identity;
pub mod ids;
pub mod knapsack;
pub mod momentum;
pub mod persistence;
pub mod presentation;
pub mod recovery;
pub mod simulation;
pub mod sorting;
pub mod text;
pub mod timing;
pub mod types;
