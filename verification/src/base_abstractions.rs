//! Shared vocabulary: files, spans and diagnostics.
use vstd::prelude::*;
use vstd::utf8::encode_utf8;

use crate::lsp_position_struct::{shape_of, LspPos};

verus! {

/// An input buffer: the text of a file and the line ends of its bytes.
pub struct Buffer {
    pub contents: String,
    pub byte_position: LspPos,
}

impl Buffer {
    /// The buffer that holds `contents`.
    pub fn new(contents: String) -> (r: Self)
        ensures
            r.contents@ == contents@,
            r.byte_position@ == shape_of(encode_utf8(contents@)),
    {
        let byte_position = LspPos::parse_file(&contents);
        Buffer { contents, byte_position }
    }
}

/// A half-open range `start..end` of byte offsets into a source buffer.
#[derive(Clone, Copy, Debug, PartialEq, Eq, Structural, Hash)]
pub struct Span {
    pub start: usize,
    pub end: usize,
}

/// Identifies a source file; two ids are equal exactly when they name the same path.
#[derive(Clone, Copy, Debug, PartialEq, Eq, Structural, Hash)]
pub struct FileId {
    pub id: u32,
}

/// How serious a diagnostic is.
#[derive(Clone, Copy, Debug, PartialEq, Eq, Structural)]
pub enum Severity {
    Info,
    Hint,
    Warning,
    Error,
}

/// A message attached to a location in a file.
#[derive(Clone, Debug)]
pub struct Diagnostic {
    pub file: FileId,
    pub location: Span,
    pub severity: Severity,
    pub message: String,
}

/// A diagnostic collected while a file is analysed.
pub struct Diagnostics(pub Diagnostic);

/// A file that another file depends on.
#[derive(Clone, Copy, Debug, PartialEq, Eq, Structural)]
pub struct IncludedDependency {
    /// The file of the dependency.
    pub file_id: FileId,
    /// Whether the dependency was found.
    pub is_resolved: bool,
}

/// A dependency collected while a file is analysed.
pub struct IncludedDependencies(pub IncludedDependency);

} // verus!
