//! Parsing, compiling and render-plan lowering for Citry templates.

pub mod text;
pub mod ast;
pub mod constants;
pub mod lang;
pub mod error;
pub mod parser;
pub mod compiler;
pub mod render_plan;
pub mod html;
pub mod deps;
pub mod body;
pub mod walk;
pub mod utils;
