//! A C program reducer: the candidate-generating passes, the reduction
//! pipeline and the validation decisions, with their contracts.
pub mod text;
pub mod numbers;
pub mod parser;
pub mod engine;
pub mod passes;
pub mod validator;
