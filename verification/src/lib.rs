pub mod assignment;
pub mod error;
pub mod filter;
pub mod flattener;
pub mod formatter;
pub mod lexer;
pub mod number;
pub mod pipeline;
pub mod semantics;
pub mod solver;
pub mod text;
pub mod translator;
pub mod types;
