//! A small Unix-like shell whose parsing, planning and formatting logic is verified.

pub mod text;
pub mod lexer;
pub mod shell;
pub mod fs_utils;
pub mod builtins;
