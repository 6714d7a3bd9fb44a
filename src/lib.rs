pub mod cnf;
pub mod dimacs;
pub mod dpll;
pub mod heuristics;
pub mod literal;
pub mod sets;
