//! Language services for Fennel: lexing, parsing, scope analysis, formatting
//! and the answers of a language server, with their contracts.
pub mod actions;
pub mod analyzer;
pub mod builtin_counts;
pub mod calls;
pub mod changes;
pub mod completion;
pub mod config;
pub mod coverage;
pub mod diagnostics;
pub mod docs;
pub mod fmt;
pub mod hooks;
pub mod indentation;
pub mod layout;
pub mod lenses;
pub mod lexer;
pub mod lsp;
pub mod lua;
pub mod lua_text;
pub mod lua_to_fennel;
pub mod lua_words;
pub mod names;
pub mod navigation;
pub mod number;
pub mod outline;
pub mod parser;
pub mod reformat;
pub mod reread;
pub mod scoping;
pub mod semantic;
pub mod strings;
pub mod text;
pub mod walks;
pub mod workspace;
