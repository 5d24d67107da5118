//! Water: a small indentation-based scripting language with a tagged-value
//! register virtual machine.

pub mod ast;
pub mod bytecode;
pub mod codegen;
pub mod diagnostics;
pub mod display;
pub mod driver;
pub mod format;
pub mod heap;
pub mod lexer;
pub mod linker;
pub mod parser;
pub mod pipeline;
pub mod soundness;
pub mod symbols;
pub mod token;
pub mod token_stream;
pub mod value;
pub mod vm;

pub use driver::{compile_source, run_capturing, run_capturing_with_files, run_compiled};
