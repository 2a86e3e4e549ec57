//! Managed-execution core of a dynamic-language runtime: a traced heap with
//! an externally rooted handle layer, a string interner supplying the uniform
//! property-key type, and the bytecode instruction set with its execution
//! semantics.

pub mod heap;
pub mod opcodes;
pub mod vm;
pub mod symbol_table;
