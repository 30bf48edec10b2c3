//! The verified core of the oxython interpreter: the instruction set and its
//! encoding, the compiler from tokens to bytecode, bytecode emission and
//! patching and where jumps land, variable scopes and closure
//! capture, slicing, association lists, source-text helpers and the decisions
//! of the command line and the interactive prompt.

pub mod bytecode;
pub mod codegen;
pub mod walk;
pub mod jumps;
pub mod object;
pub mod scope;
pub mod collections;
pub mod assoc;
pub mod text;
pub mod vm;
pub mod compiler;
pub mod cli;
pub mod editor;
pub mod strings;
pub mod tokens;
