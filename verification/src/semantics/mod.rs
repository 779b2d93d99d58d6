pub mod analyzer;
pub mod function;
pub mod global_context;
pub mod typing;
