pub mod span;
pub mod ast;
pub mod visitor;
pub mod error;
