pub mod text;
pub mod grammar;
pub mod binary;
pub mod error;
pub mod patterns;
pub mod numbers;
pub mod tokenizer;
pub mod iota;
pub mod encoder;
pub mod used_types;
pub mod file_utils;
pub mod cli;
