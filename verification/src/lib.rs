pub mod arena;
pub mod dataset_gen;
pub mod ops;
pub mod plan;
pub mod repl;
pub mod rewrite;
pub mod theorems;
