//! A small SQL template engine: expressions over JSON-like values, and
//! templates that interleave SQL text with bound expressions and directives.
pub mod value;
pub mod text;
pub mod expr;
pub mod lexer;
pub mod parse;
pub mod exec;
pub mod template;
pub mod sync_map;
pub mod cache;
