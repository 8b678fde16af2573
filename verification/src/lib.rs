//! A compiler backend for a minimalist one-dimensional tape machine: a static
//! slot allocator, an instruction-tree representation with primitive and
//! composite emitters and nested scopes, an execution engine that doubles as
//! the oracle for the position assertions woven into generated code, and
//! proved laws connecting the emitted code to the machine semantics.

pub mod codegen;
pub mod machine;
pub mod semantics;
