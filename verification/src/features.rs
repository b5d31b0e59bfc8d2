//! The language features the server answers with: hover text, completion labels, diagnostics in
//! protocol positions, and the application of a client's document changes.
use vstd::prelude::*;
use crate::analyzer::{contents_of, diagnostic_view, spec_diagnostics, Analyzer};
use crate::base_abstractions::{Diagnostic, FileId, Severity, Span};
use crate::json_rpc::{push_decimal, spec_decimal};
use crate::lexer::Token;
use crate::lsp_file::{file_byte_to_lsp, file_lazy_add, file_lazy_add_accepts, LspFile};
use crate::text::same_text;
use crate::text_document::{Position, Range, TextDocumentContentChangeEvent};

verus! {

// ---------------------------------------------------------------------------------------------
// Hover
// ---------------------------------------------------------------------------------------------

/// The (markdown) text shown when hovering at a position.
pub open spec fn spec_hover_text(line: u32, character: u32) -> Seq<char> {
    "Hovering over Ln *"@ + spec_decimal(line as nat) + "*, Col *"@ + spec_decimal(character as nat)
        + "*."@
}

pub fn hover_text(line: u32, character: u32) -> (r: String)
    ensures
        r@ == spec_hover_text(line, character),
{
    let mut s = String::from_str("Hovering over Ln *");
    push_decimal(&mut s, line as u64);
    s.append("*, Col *");
    push_decimal(&mut s, character as u64);
    s.append("*.");
    s
}

// ---------------------------------------------------------------------------------------------
// Completion
// ---------------------------------------------------------------------------------------------

/// The names of the identifiers among the first `k` tokens, in order.
pub open spec fn identifier_names(toks: Seq<(FileId, Token, Span)>, k: int) -> Seq<Seq<char>>
    decreases k,
{
    if k <= 0 || k > toks.len() {
        Seq::empty()
    } else {
        let before = identifier_names(toks, k - 1);
        match toks[k - 1].1 {
            Token::Identifier(name) => before.push(name@),
            _ => before,
        }
    }
}

/// `names` without repetitions, each at its first occurrence.
pub open spec fn first_occurrences(names: Seq<Seq<char>>) -> Seq<Seq<char>>
    decreases names.len(),
{
    if names.len() == 0 {
        names
    } else {
        let before = first_occurrences(names.drop_last());
        if before.contains(names.last()) {
            before
        } else {
            before.push(names.last())
        }
    }
}

/// The completion labels offered for a preprocessed token stream: the names of its identifiers,
/// each once, in the order in which they first occur.
pub fn completion_labels(tokens: &Vec<(FileId, Token, Span)>) -> (r: Vec<String>)
    ensures
        r@.map_values(|s: String| s@) == first_occurrences(
            identifier_names(tokens@, tokens@.len() as int),
        ),
{
    let mut r: Vec<String> = Vec::new();
    let mut i: usize = 0;
    while i < tokens.len()
        invariant
            i <= tokens.len(),
            r@.map_values(|s: String| s@) == first_occurrences(
                identifier_names(tokens@, i as int),
            ),
        decreases tokens.len() - i,
    {
        let ghost names = identifier_names(tokens@, i + 1);
        if let Token::Identifier(name) = &tokens[i].1 {
            let ghost seen = r@.map_values(|s: String| s@);
            assert(names.drop_last() =~= identifier_names(tokens@, i as int));
            let mut found = false;
            let mut j: usize = 0;
            while j < r.len()
                invariant
                    j <= r.len(),
                    seen == r@.map_values(|s: String| s@),
                    found <==> exists|k: int| 0 <= k < j && seen[k] == name@,
                decreases r.len() - j,
            {
                assert(seen[j as int] == r@[j as int]@);
                if same_text(r[j].as_str(), name.as_str()) {
                    found = true;
                }
                j = j + 1;
            }
            proof {
                if seen.contains(name@) {
                    let k = choose|k: int| 0 <= k < seen.len() && seen[k] == name@;
                    assert(0 <= k < r.len() && seen[k] == name@);
                }
            }
            if !found {
                r.push(name.clone());
                assert(r@.map_values(|s: String| s@) =~= seen.push(name@));
            }
        }
        i = i + 1;
    }
    r
}

// ---------------------------------------------------------------------------------------------
// Diagnostics
// ---------------------------------------------------------------------------------------------

/// How serious a diagnostic is, as the protocol grades it.
#[derive(Clone, Copy, Debug, PartialEq, Eq, Structural)]
pub enum DiagnosticSeverity {
    Error,
    Warning,
    Information,
    Hint,
}

impl DiagnosticSeverity {
    /// The protocol's number for the severity.
    pub fn code(self) -> (r: i32)
        ensures
            r == match self {
                DiagnosticSeverity::Error => 1i32,
                DiagnosticSeverity::Warning => 2i32,
                DiagnosticSeverity::Information => 3i32,
                DiagnosticSeverity::Hint => 4i32,
            },
    {
        match self {
            DiagnosticSeverity::Error => 1,
            DiagnosticSeverity::Warning => 2,
            DiagnosticSeverity::Information => 3,
            DiagnosticSeverity::Hint => 4,
        }
    }
}

pub open spec fn spec_lsp_severity(s: Severity) -> DiagnosticSeverity {
    match s {
        Severity::Info => DiagnosticSeverity::Information,
        Severity::Hint => DiagnosticSeverity::Hint,
        Severity::Warning => DiagnosticSeverity::Warning,
        Severity::Error => DiagnosticSeverity::Error,
    }
}

pub fn lsp_severity(s: Severity) -> (r: DiagnosticSeverity)
    ensures
        r == spec_lsp_severity(s),
{
    match s {
        Severity::Info => DiagnosticSeverity::Information,
        Severity::Hint => DiagnosticSeverity::Hint,
        Severity::Warning => DiagnosticSeverity::Warning,
        Severity::Error => DiagnosticSeverity::Error,
    }
}

/// A diagnostic as the protocol reports it: a range of positions in the document.
#[derive(Clone, Debug)]
pub struct LspDiagnostic {
    pub range: Range,
    pub severity: DiagnosticSeverity,
    pub message: String,
}

/// The diagnostic `d` (file, byte span, severity, message) reported over the document `text`:
/// its byte span as positions.
pub open spec fn spec_lsp_diagnostic(
    text: Seq<char>,
    d: (FileId, Span, Severity, Seq<char>),
    r: LspDiagnostic,
) -> bool {
    &&& (r.range.start.line as int, r.range.start.character as int) == file_byte_to_lsp(
        text,
        d.1.start as int,
    )
    &&& (r.range.end.line as int, r.range.end.character as int) == file_byte_to_lsp(
        text,
        d.1.end as int,
    )
    &&& r.severity == spec_lsp_severity(d.2)
    &&& r.message@ == d.3
}

/// The diagnostics `ds` of the document held by `file`, in protocol positions.
pub fn convert_diagnostics(ds: &Vec<Diagnostic>, file: &LspFile) -> (r: Vec<LspDiagnostic>)
    requires
        file@.len() <= u32::MAX,
    ensures
        r.len() == ds.len(),
        forall|i: int|
            0 <= i < ds.len() ==> spec_lsp_diagnostic(file@, diagnostic_view(ds@[i]), #[trigger] r@[i]),
{
    let mut r: Vec<LspDiagnostic> = Vec::new();
    let mut i: usize = 0;
    while i < ds.len()
        invariant
            i <= ds.len(),
            file@.len() <= u32::MAX,
            r.len() == i,
            forall|j: int|
                0 <= j < i ==> spec_lsp_diagnostic(file@, diagnostic_view(ds@[j]), #[trigger] r@[j]),
        decreases ds.len() - i,
    {
        let d = &ds[i];
        let start = file.byte_to_lsp(d.location.start);
        let end = file.byte_to_lsp(d.location.end);
        r.push(
            LspDiagnostic {
                range: Range::new(start, end),
                severity: lsp_severity(d.severity),
                message: d.message.clone(),
            },
        );
        i = i + 1;
    }
    r
}

/// The diagnostics of the file `file_id`, whose text is `input`, in protocol positions.
pub fn process_diagnostics(analyzer: &Analyzer, file_id: FileId, input: &String) -> (r: Vec<
    LspDiagnostic,
>)
    requires
        analyzer.wf(),
        input@.len() <= u32::MAX,
    ensures
        r.len() == spec_diagnostics(analyzer.spec_paths(), analyzer.spec_contents(), file_id).len(),
        forall|i: int|
            0 <= i < r.len() ==> spec_lsp_diagnostic(
                input@,
                spec_diagnostics(analyzer.spec_paths(), analyzer.spec_contents(), file_id)[i],
                #[trigger] r@[i],
            ),
{
    let ds = analyzer.diagnostics(file_id);
    let file = LspFile::new(input);
    let r = convert_diagnostics(&ds, &file);
    proof {
        assert forall|i: int| 0 <= i < r.len() implies spec_lsp_diagnostic(
            input@,
            spec_diagnostics(analyzer.spec_paths(), analyzer.spec_contents(), file_id)[i],
            #[trigger] r@[i],
        ) by {
            assert(ds@.map_values(|d: Diagnostic| diagnostic_view(d))[i] == diagnostic_view(ds@[i]));
        }
    }
    r
}

// ---------------------------------------------------------------------------------------------
// Document changes
// ---------------------------------------------------------------------------------------------

/// `text` after the first `k` changes, in order.
pub open spec fn apply_changes(
    text: Seq<char>,
    changes: Seq<TextDocumentContentChangeEvent>,
    k: int,
) -> Seq<char>
    decreases k,
{
    if k <= 0 || k > changes.len() {
        text
    } else {
        file_lazy_add(apply_changes(text, changes, k - 1), changes[k - 1])
    }
}

/// Why a `didChange` notification could not be applied.
#[derive(Clone, Copy, Debug, PartialEq, Eq, Structural)]
pub enum DidChangeError {
    /// The document is not in the file system.
    UnknownFile,
    /// The change at this index has a range that ends before it starts, or makes the document
    /// too large.
    BadChange(usize),
}

impl DidChangeError {
    pub fn to_string(&self) -> (r: String)
        ensures
            *self == DidChangeError::UnknownFile ==> r@
                == "received a didChange notification for an unknown file"@,
            self is BadChange ==> r@ == "received a didChange notification with an invalid range"@,
    {
        match self {
            DidChangeError::UnknownFile => String::from_str(
                "received a didChange notification for an unknown file",
            ),
            DidChangeError::BadChange(_) => String::from_str(
                "received a didChange notification with an invalid range",
            ),
        }
    }
}

/// Applies the changes of a `didChange` notification, in order, to the document `uri`.
pub fn did_change(
    analyzer: &mut Analyzer,
    uri: &str,
    changes: &Vec<TextDocumentContentChangeEvent>,
) -> (r: Result<FileId, DidChangeError>)
    requires
        old(analyzer).wf(),
        old(analyzer).spec_paths().len() < u32::MAX,
    ensures
        final(analyzer).wf(),
        ({
            let id = match crate::analyzer::find_path(old(analyzer).spec_paths(), uri@, 0) {
                Some(k) => k,
                None => old(analyzer).spec_paths().len() as int,
            };
            let paths = if crate::analyzer::find_path(old(analyzer).spec_paths(), uri@, 0) is Some {
                old(analyzer).spec_paths()
            } else {
                old(analyzer).spec_paths().push(uri@)
            };
            let contents = if crate::analyzer::find_path(old(analyzer).spec_paths(), uri@, 0) is Some {
                old(analyzer).spec_contents()
            } else {
                old(analyzer).spec_contents().push(None)
            };
            &&& final(analyzer).spec_paths() == paths
            &&& match contents[id] {
                None => r == Err::<FileId, DidChangeError>(DidChangeError::UnknownFile)
                    && final(analyzer).spec_contents() == contents,
                Some(text) => match r {
                    Ok(f) => f.id == id && (forall|k: int|
                        0 <= k < changes.len() ==> file_lazy_add_accepts(
                            #[trigger] apply_changes(text, changes@, k),
                            changes@[k],
                        )) && final(analyzer).spec_contents() == contents.update(
                        id,
                        Some(apply_changes(text, changes@, changes.len() as int)),
                    ),
                    Err(DidChangeError::BadChange(k)) => k < changes.len() && (forall|j: int|
                        0 <= j < k ==> file_lazy_add_accepts(
                            #[trigger] apply_changes(text, changes@, j),
                            changes@[j],
                        )) && !file_lazy_add_accepts(
                        apply_changes(text, changes@, k as int),
                        changes@[k as int],
                    ) && final(analyzer).spec_contents() == contents,
                    Err(DidChangeError::UnknownFile) => false,
                },
            }
        }),
{
    let file_id = analyzer.file_id(uri);
    let ghost c1 = analyzer.spec_contents();
    let ghost p1 = analyzer.spec_paths();
    proof {
        analyzer.lemma_wf();
        crate::analyzer::lemma_find_path(old(analyzer).spec_paths(), uri@, 0);
    }
    let mut file = match analyzer.input(file_id) {
        Some(i) => LspFile::new(i),
        None => {
            proof {
                assert(contents_of(c1, file_id) is None);
                assert(file_id.id < c1.len());
                assert(c1[file_id.id as int] is None);
            }
            return Err(DidChangeError::UnknownFile);
        },
    };
    let ghost text = file@;
    let mut i: usize = 0;
    while i < changes.len()
        invariant
            i <= changes.len(),
            analyzer.wf(),
            analyzer.spec_paths() == p1,
            analyzer.spec_contents() == c1,
            file_id.id < p1.len(),
            contents_of(c1, file_id) == Some(text),
            match crate::analyzer::find_path(old(analyzer).spec_paths(), uri@, 0) {
                Some(k) => file_id.id == k && p1 == old(analyzer).spec_paths() && c1 == old(
                    analyzer,
                ).spec_contents(),
                None => file_id.id == old(analyzer).spec_paths().len() && p1 == old(
                    analyzer,
                ).spec_paths().push(uri@) && c1 == old(analyzer).spec_contents().push(None),
            },
            file@ == apply_changes(text, changes@, i as int),
            forall|j: int|
                0 <= j < i ==> file_lazy_add_accepts(
                    #[trigger] apply_changes(text, changes@, j),
                    changes@[j],
                ),
        decreases changes.len() - i,
    {
        if !file.can_lazy_add(&changes[i]) {
            return Err(DidChangeError::BadChange(i));
        }
        file.lazy_add(&changes[i]);
        i = i + 1;
    }
    let new_text = file.get_file_content().clone();
    analyzer.update(file_id, new_text);
    Ok(file_id)
}

} // verus!
