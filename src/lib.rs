//! Structuring back-end of a bytecode decompiler: an AST with local
//! declaration placement, per-block def-use records for SSA values, and
//! expression inlining inside a block.

pub mod ast;
pub mod error;
pub mod local_declarations;
pub mod cfg;
pub mod def_use;
pub mod inline;
pub mod lifter;
