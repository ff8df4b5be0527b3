pub mod ast;
pub mod blog;
pub mod parse;
pub mod property_value;
pub mod text;
pub mod tokenize;
