pub mod constants;
pub mod structs;
pub mod text;
pub mod errors;
pub mod reporter;
pub mod lexer;
pub mod parser;
pub mod keyspaces;
pub mod deserialise;
pub mod templates;
pub mod cli;
