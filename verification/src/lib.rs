//! Ved: a small language for deterministic, goal-driven control planes.
//!
//! The crate holds the whole tool chain: a lexer, a parser, a semantic
//! validator and a code generator for Ved sources, the bytecode and its binary
//! packing, and the runtime that executes it: isolated domain state,
//! prioritised mailboxes, logical clocks, the slice interpreter, the goal
//! evaluator, the domain registry, snapshots, the execution trace and the
//! scheduler that runs the domains cycle by cycle.

pub mod text;
pub mod state;
pub mod strmap;
pub mod logical_clock;
pub mod messaging;
pub mod bytecode;
pub mod bundle;
pub mod interpreter;
pub mod goal_engine;
pub mod domain_registry;
pub mod persistence;
pub mod rng;
pub mod tracer;
pub mod scheduler;
pub mod reproducible;
pub mod lexer;
pub mod ast;
pub mod parser;
pub mod semantic;
pub mod codegen;
pub mod compiler;

pub use compiler::compile_source;
