pub mod tokenizer;
pub mod tree_builder;
