//! Verified core of a P4 language analyzer.
use vstd::prelude::*;

pub mod base_abstractions;
pub mod text;
pub mod preprocessor;
pub mod lexer;
pub mod text_document;
pub mod lsp_position_struct;
pub mod lsp_file;
pub mod json_rpc;
pub mod lsp_protocol;
pub mod analyzer;
pub mod parser;
pub mod ast;
pub mod capabilities;
pub mod features;
pub mod futures_extensions;
pub mod workspace;
pub mod trace;
pub mod extensions;
pub mod requests;

verus! {

} // verus!
