//! A small interactive shell: tokenizing, builtins, completion and job bookkeeping.
pub mod commands;
pub mod helper;
pub mod history;
pub mod jobs;
pub mod order;
pub mod string_map;
pub mod text;
pub mod tokenize;
pub mod trie;
pub mod utils;
