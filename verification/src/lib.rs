//! A runtime interpreter for Ascent-style Datalog programs supplied as data,
//! with a verified relational core, a verified expression language and its
//! WebAssembly lowering, and the `fact_query` conjunctive-query substrate.

pub mod value;

pub mod env;
pub mod expr;
pub mod ir;
pub mod error;
pub mod store;
pub mod eval;
pub mod solve;
pub mod strata;
pub mod groups;
pub mod least;
pub mod least_model;
pub mod run;
pub mod explain;
pub mod lexer;
pub mod parser;
pub mod order;
pub mod engine;
pub mod wasm;
pub mod lowering;
pub mod host;
pub mod fact_query;

pub use crate::engine::{engine_from_source, Consequences, Engine, Error};
pub use crate::eval::{ExprEval, Interpreter};
pub use crate::explain::{Derivation, QueryOutput, QuerySolution};
pub use crate::expr::ExprError;
pub use crate::value::{Interner, Symbol, Type, Value};
pub use crate::wasm::{WasmEval, WasmExecutor, WasmtimeExecutor};
