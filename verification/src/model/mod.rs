pub mod ast;
pub mod ir;
pub mod ir_text;
