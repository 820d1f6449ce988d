//! A genetic-programming engine for Push3-style stack-machine programs: the
//! program tree and its bytecode, path-addressed subtree access, random
//! generation, mutation and crossover operators, structural distance, the
//! S-expression text form, and the regression targets that programs are fit to.

pub mod ast;
pub mod mutation;
pub mod random;
pub mod generate_spec;
pub mod distance;
pub mod generate;
pub mod genetic_ops;
pub mod local_mutation;
pub mod sexpr;
pub mod artifact;
pub mod samples;
