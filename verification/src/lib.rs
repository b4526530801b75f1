//! A small compiler for the "snake" language: abstract syntax, a static
//! checker, a translation to sequential (A-normal) form, liveness analysis,
//! register allocation by graph colouring, x86-64 code generation, and a
//! reference interpreter.
#![allow(unused_imports)]
#![allow(dead_code)]

pub mod text;
pub mod assembly;
pub mod runtime;
pub mod lexer;
pub mod view_eq;
pub mod list;
pub mod vecset;
pub mod graph;
pub mod vecmap;
pub mod syntax;
pub mod compile;
pub mod sequentialize;
pub mod liveness;
pub mod measure;
pub mod regalloc;
pub mod vars;
pub mod codegen;
pub mod interp;
pub mod runner;
pub mod progress;
pub mod scoping;
