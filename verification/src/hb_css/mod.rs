pub mod selectors;
pub mod parser;
pub mod cascade;
