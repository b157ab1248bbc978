pub mod builder;
pub mod cli_error;
pub mod compiler;
pub mod emitter;
pub mod error;
pub mod options;
pub mod parser;
pub mod server;
pub mod strutil;
pub mod tokenizer;
