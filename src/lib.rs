pub mod ast;
pub mod codegen;
pub mod engine;
pub mod evaluator;
pub mod greeting;
pub mod helper;
pub mod parser;
