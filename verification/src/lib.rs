//! Lexical front end of the Squid language toolchain.
//!
//! The library turns raw source text into a flat sequence of classified
//! tokens. The pipeline runs strictly left to right: the comment stripper
//! removes `//` suffixes and leading whitespace per line, the chunker
//! partitions the stripped text at statement-terminating semicolons that
//! lie outside string literals, the lexer core turns one chunk into an
//! ordered token sequence, and the dispatcher concatenates the per-chunk
//! sequences in original source order.

pub mod args;
pub mod chars;
pub mod chunks;
pub mod classify;
pub mod laws;
pub mod lexer;
pub mod machine;
pub mod numeric;
pub mod pipeline;
pub mod strip;
pub mod token;

pub use args::Args;
pub use chunks::code_chunckenizer;
pub use classify::process_buffer;
pub use lexer::check_next_char;
pub use lexer::tokenize;
pub use pipeline::SourceLexError;
pub use pipeline::tokenize_chunks;
pub use pipeline::tokenize_source;
pub use strip::remove_comments;
pub use token::Delimiter;
pub use token::Keywords;
pub use token::LexError;
pub use token::Operators;
pub use token::Token;
pub use token::Types;
