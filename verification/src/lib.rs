//! Structuring of control flow: from a graph of basic blocks to nested
//! statements, with gotos only where no structure can be found.

pub mod ast;
pub mod blocks;
pub mod cfg;
pub mod chunk;
pub mod dominance;
pub mod emit;
pub mod flow;
pub mod idle;
pub mod inspect;
pub mod jumps;
pub mod labels;
pub mod lists;
pub mod loops;
pub mod passes;
pub mod patterns;
pub mod refine;
pub mod search;
pub mod serve;
pub mod structurer;
pub mod tables;
pub mod text;
pub mod walk;
