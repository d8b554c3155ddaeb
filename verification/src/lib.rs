//! A source-code pretty printer: a document algebra describing every admissible
//! layout of a program, and resolvers that pick one layout within a width budget.

pub mod cli;
pub mod config;
pub mod document;
pub mod document_builder;
pub mod format_stream;
pub mod format_streams;
pub mod pretty_expressive;
pub mod print;
pub mod render;
pub mod resolve_try_catch;
pub mod with_context;
pub mod writer;
