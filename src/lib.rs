//! Evaluation core of a combinator virtual machine: immutable binary-tree
//! values, axis addressing, a persistent hash trie and an explicit-stack
//! reduction engine.

pub mod noun;
pub mod axis;
pub mod hamt;
pub mod nock;
pub mod interpreter;
pub mod jets;
pub mod codegen;
pub mod snapshot;
