pub mod converter;
pub mod laws;
pub mod render;
pub mod token;
pub mod tokenizer;
