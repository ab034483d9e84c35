pub mod types;
pub mod utils;
pub mod solvers;
pub mod solver;
pub mod parser;
pub mod printer;
