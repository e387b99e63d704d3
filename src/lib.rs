//! A generational genetic algorithm, and a grid-maze domain to evolve with it.
pub mod genetic;
pub mod grid;
pub mod maze;
pub mod rng;

pub use genetic::{Evaluator, Evolutionable, GeneticAlgorithm};
pub use maze::{Maze, MazeEval, TileState};

