pub mod dom;
pub mod parser;
