//! A linter for Python sources: flake8-async's ASYNC200 check and the
//! type escape hatch rules, over a syntax tree handed in by the caller.
pub mod ast;
pub mod bytes;
pub mod seqs;
pub mod glob;
pub mod checker;
pub mod comments;
pub mod report;
pub mod cli;
pub mod files;
pub mod order;
pub mod separation;
pub mod callgraph;
pub mod resolve;
pub mod evidence;
pub mod transitive;
pub mod preset;
