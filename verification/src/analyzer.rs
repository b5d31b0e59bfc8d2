//! The analysis of a set of files: their contents by id, their tokens, and
//! the preprocessed token stream of each with its diagnostics.
//!
//! File ids are interned paths: the file with id `i` has the `i`-th path
//! ever asked for. A path may have an id without being in the file system.
use vstd::prelude::*;
use vstd::utf8::encode_utf8;

use crate::base_abstractions::{Buffer, Diagnostic, FileId, Severity, Span};
use crate::lexer::{lexemes_view, spec_lex, try_lex, LexedBuffer, SpecToken, Token};
use crate::lsp_position_struct::shape_of;
use crate::preprocessor::evaluate::SpecDefinitions;
use crate::preprocessor::state::{
    errors_view, pp_tokens_view, sources_view, spec_pp_run, PreprocessorState, SourceFile, SpecPP,
    SpecPPToken, SpecSources,
};

verus! {

/// The index of the first of `paths` equal to `p`.
pub open spec fn find_path(paths: Seq<Seq<char>>, p: Seq<char>, i: int) -> Option<int>
    decreases paths.len() - i,
{
    if i < 0 || i >= paths.len() {
        None
    } else if paths[i] == p {
        Some(i)
    } else {
        find_path(paths, p, i + 1)
    }
}

/// A path found is at a valid index and equal to the one looked for.
pub proof fn lemma_find_path(paths: Seq<Seq<char>>, p: Seq<char>, i: int)
    ensures
        find_path(paths, p, i) matches Some(k) ==> 0 <= k < paths.len() && paths[k] == p,
    decreases paths.len() - i,
{
    if 0 <= i < paths.len() && paths[i] != p {
        lemma_find_path(paths, p, i + 1);
    }
}

/// The tokens of `contents`, with their spans; `None` where lexing faults.
pub open spec fn lexed_tokens(contents: Seq<char>) -> Option<Seq<(SpecToken, Span)>> {
    match spec_lex(contents) {
        Some((t, _)) => Some(t),
        None => None,
    }
}

/// The files that `#include` can name, by id: path, and tokens when the file
/// is in the file system and lexes.
pub open spec fn spec_sources(paths: Seq<Seq<char>>, contents: Seq<Option<Seq<char>>>) -> SpecSources {
    Seq::new(
        paths.len(),
        |i: int|
            (
                paths[i],
                match contents[i] {
                    Some(c) => lexed_tokens(c),
                    None => None,
                },
            ),
    )
}

/// The tokens of a file, each with the file's id.
pub open spec fn with_file(id: FileId, toks: Seq<(SpecToken, Span)>) -> Seq<SpecPPToken> {
    toks.map_values(|p: (SpecToken, Span)| (id, p.0, p.1))
}

/// The state in which preprocessing the file `id` with tokens `toks` starts.
pub open spec fn initial_run(id: FileId, toks: Seq<(SpecToken, Span)>) -> SpecPP {
    SpecPP {
        defs: Seq::<(Seq<char>, Seq<char>)>::empty(),
        errors: seq![],
        opened: Set::empty(),
        cond: seq![],
        input: with_file(id, toks),
        result: seq![],
        prev: None,
        skip: None,
    }
}

/// Preprocessing the file `id`: `None` when it is not in the file system, does
/// not lex, or preprocessing faults.
pub open spec fn spec_preprocess(paths: Seq<Seq<char>>, contents: Seq<Option<Seq<char>>>, id: FileId) -> Option<
    SpecPP,
> {
    if id.id >= paths.len() {
        None
    } else {
        match contents[id.id as int] {
            None => None,
            Some(c) => match lexed_tokens(c) {
                None => None,
                Some(toks) => spec_pp_run(spec_sources(paths, contents), initial_run(id, toks)),
            },
        }
    }
}

/// The contents of the file `id`, when it has an id and is in the file system.
pub open spec fn contents_of(contents: Seq<Option<Seq<char>>>, id: FileId) -> Option<Seq<char>> {
    if id.id < contents.len() {
        contents[id.id as int]
    } else {
        None
    }
}

/// A diagnostic as plain values: file, location, severity and message.
pub open spec fn diagnostic_view(d: Diagnostic) -> (FileId, Span, Severity, Seq<char>) {
    (d.file, d.location, d.severity, d.message@)
}

/// The diagnostics of the file `id`: those of lexing it, then the errors of
/// preprocessing it, all with severity error.
pub open spec fn spec_diagnostics(paths: Seq<Seq<char>>, contents: Seq<Option<Seq<char>>>, id: FileId) -> Seq<
    (FileId, Span, Severity, Seq<char>),
> {
    match contents_of(contents, id) {
        None => seq![],
        Some(c) => {
            let lexing = match spec_lex(c) {
                Some((_, ds)) => ds.map_values(|m: (Span, Seq<char>)| (id, m.0, Severity::Error, m.1)),
                None => seq![],
            };
            let preprocessing = match spec_preprocess(paths, contents, id) {
                Some(fin) => fin.errors.map_values(
                    |e: ((FileId, Span), Seq<char>)| (e.0.0, e.0.1, Severity::Error, e.1),
                ),
                None => seq![],
            };
            lexing + preprocessing
        },
    }
}

/// A set of files and their analysis.
pub struct Analyzer {
    /// The interned paths, by id.
    paths: Vec<String>,
    /// The buffer of each file that is in the file system, by id.
    fs: Fs,
}

/// The file system: the buffer of each file that is in it, by id.
pub struct Fs {
    buffers: Vec<Option<Buffer>>,
}

impl Fs {
    /// An empty file system.
    pub fn new() -> (r: Self)
        ensures
            r.spec_buffers() == Seq::<Option<Buffer>>::empty(),
    {
        Fs { buffers: Vec::new() }
    }

    /// The buffer of each id: `None` where the file is not in the file system.
    pub closed spec fn spec_buffers(&self) -> Seq<Option<Buffer>> {
        self.buffers@
    }
}

/// Whether `b` holds the line ends of its contents.
pub open spec fn buffer_wf(b: Buffer) -> bool {
    b.byte_position@ == shape_of(encode_utf8(b.contents@))
}

impl Analyzer {
    /// The tables agree: a buffer per id, the line ends of each buffer.
    pub closed spec fn wf(self) -> bool {
        &&& self.paths@.len() == self.fs.buffers@.len()
        &&& self.paths@.len() <= u32::MAX
        &&& forall|i: int| 0 <= i < self.fs.buffers@.len() && self.fs.buffers@[i] is Some ==> buffer_wf(#[trigger] self.fs.buffers@[i]->0)
    }

    /// The interned paths, by id.
    pub closed spec fn spec_paths(&self) -> Seq<Seq<char>> {
        self.paths@.map_values(|p: String| p@)
    }

    /// The contents of each file that is in the file system, by id.
    pub closed spec fn spec_contents(&self) -> Seq<Option<Seq<char>>> {
        self.fs.buffers@.map_values(
            |f: Option<Buffer>|
                match f {
                    Some(b) => Some(b.contents@),
                    None => None,
                },
        )
    }

    /// The numbers of paths and of contents agree, and ids fit a `u32`.
    pub proof fn lemma_wf(&self)
        requires
            self.wf(),
        ensures
            self.spec_paths().len() == self.spec_contents().len() <= u32::MAX,
    {
    }

    /// The number of interned paths.
    pub fn file_count(&self) -> (r: usize)
        requires
            self.wf(),
        ensures
            r == self.spec_paths().len(),
    {
        self.paths.len()
    }

    /// No files.
    pub fn new() -> (r: Self)
        ensures
            r.wf(),
            r.spec_paths() == Seq::<Seq<char>>::empty(),
            r.spec_contents() == Seq::<Option<Seq<char>>>::empty(),
    {
        let r = Analyzer { paths: Vec::new(), fs: Fs::new() };
        assert(r.spec_paths() =~= Seq::<Seq<char>>::empty());
        assert(r.spec_contents() =~= Seq::<Option<Seq<char>>>::empty());
        r
    }

    /// The id of `uri`: the one it was given before, or a new one.
    pub fn file_id(&mut self, uri: &str) -> (r: FileId)
        requires
            old(self).wf(),
            old(self).spec_paths().len() < u32::MAX,
        ensures
            final(self).wf(),
            match find_path(old(self).spec_paths(), uri@, 0) {
                Some(k) => r.id == k && final(self).spec_paths() == old(self).spec_paths()
                    && final(self).spec_contents() == old(self).spec_contents(),
                None => r.id == old(self).spec_paths().len() && final(self).spec_paths() == old(
                    self,
                ).spec_paths().push(uri@) && final(self).spec_contents() == old(self).spec_contents().push(None),
            },
    {
        let mut i: usize = 0;
        while i < self.paths.len()
            invariant
                i <= self.paths.len(),
                *self == *old(self),
                old(self).wf(),
                find_path(self.spec_paths(), uri@, i as int) == find_path(self.spec_paths(), uri@, 0),
            decreases self.paths.len() - i,
        {
            if crate::text::same_text(self.paths[i].as_str(), uri) {
                return FileId { id: i as u32 };
            }
            i = i + 1;
        }
        let id = self.paths.len();
        let ghost p0 = self.spec_paths();
        let ghost c0 = self.spec_contents();
        self.paths.push(uri.to_owned());
        self.fs.buffers.push(None);
        assert(self.spec_paths() =~= p0.push(uri@));
        assert(self.spec_contents() =~= c0.push(None));
        FileId { id: id as u32 }
    }

    /// Sets the contents of the file `file_id`.
    pub fn update(&mut self, file_id: FileId, input: String)
        requires
            old(self).wf(),
            file_id.id < old(self).spec_paths().len(),
        ensures
            final(self).wf(),
            final(self).spec_paths() == old(self).spec_paths(),
            final(self).spec_contents() == old(self).spec_contents().update(file_id.id as int, Some(input@)),
    {
        let ghost c0 = self.spec_contents();
        let ghost v = input@;
        let b = Buffer::new(input);
        self.fs.buffers.set(file_id.id as usize, Some(b));
        assert(self.spec_contents() =~= c0.update(file_id.id as int, Some(v)));
    }
}

/// Lexes the buffer of the file `file_id` (see [`try_lex`]).
pub fn lex(file_id: FileId, buf: &Buffer) -> (r: Option<LexedBuffer>)
    ensures
        match spec_lex(buf.contents@) {
            None => r is None,
            Some((toks, ds)) => r matches Some(b) && lexemes_view(b.lexemes@) == toks
                && crate::lexer::lex_messages_view(b.diagnostics@) == ds && crate::lexer::all_errors_of(
                b.diagnostics@,
                file_id,
            ),
        },
{
    try_lex(file_id, buf.contents.as_str())
}

impl Analyzer {
    /// The contents of the file `file_id`, when it is in the file system.
    pub fn input(&self, file_id: FileId) -> (r: Option<&String>)
        requires
            self.wf(),
        ensures
            match contents_of(self.spec_contents(), file_id) {
                Some(c) => r matches Some(s) && s@ == c,
                None => r is None,
            },
    {
        match self.buffer(file_id) {
            Some(b) => Some(&b.contents),
            None => None,
        }
    }

    /// The buffer of the file `file_id`, when it is in the file system.
    pub fn buffer(&self, file_id: FileId) -> (r: Option<&Buffer>)
        requires
            self.wf(),
        ensures
            match contents_of(self.spec_contents(), file_id) {
                Some(c) => r matches Some(b) && b.contents@ == c && buffer_wf(*b),
                None => r is None,
            },
    {
        let i = file_id.id as usize;
        if i >= self.fs.buffers.len() {
            return None;
        }
        match &self.fs.buffers[i] {
            Some(b) => Some(b),
            None => None,
        }
    }

    /// The tokens of the file `file_id`, when it is in the file system and
    /// lexes.
    pub fn lexed(&self, file_id: FileId) -> (r: Option<Vec<(Token, Span)>>)
        requires
            self.wf(),
        ensures
            match contents_of(self.spec_contents(), file_id) {
                Some(c) => match lexed_tokens(c) {
                    Some(t) => r matches Some(v) && lexemes_view(v@) == t,
                    None => r is None,
                },
                None => r is None,
            },
    {
        match self.buffer(file_id) {
            Some(b) => match lex(file_id, b) {
                Some(l) => Some(l.lexemes),
                None => None,
            },
            None => None,
        }
    }

    /// The files that `#include` can name, by id.
    fn sources(&self) -> (r: Vec<SourceFile>)
        requires
            self.wf(),
        ensures
            sources_view(r@) == spec_sources(self.spec_paths(), self.spec_contents()),
            r@.len() <= u32::MAX,
    {
        let mut r: Vec<SourceFile> = Vec::new();
        let mut i: usize = 0;
        while i < self.paths.len()
            invariant
                self.wf(),
                i <= self.paths.len(),
                sources_view(r@) == spec_sources(self.spec_paths(), self.spec_contents()).take(i as int),
            decreases self.paths.len() - i,
        {
            let lexemes = match &self.fs.buffers[i] {
                Some(b) => match lex(FileId { id: i as u32 }, b) {
                    Some(l) => Some(l.lexemes),
                    None => None,
                },
                None => None,
            };
            let ghost before = r@;
            r.push(SourceFile { path: self.paths[i].clone(), lexemes });
            assert(sources_view(r@) =~= spec_sources(self.spec_paths(), self.spec_contents()).take(i + 1)) by {
                assert(sources_view(r@) =~= sources_view(before).push(sources_view(r@)[i as int]));
            }
            i = i + 1;
        }
        assert(spec_sources(self.spec_paths(), self.spec_contents()).take(i as int) =~= spec_sources(
            self.spec_paths(),
            self.spec_contents(),
        ));
        r
    }

    /// Whether the file `file_id` is in the file system.
    fn has_file(&self, file_id: FileId) -> (r: bool)
        requires
            self.wf(),
        ensures
            r == (contents_of(self.spec_contents(), file_id) is Some),
    {
        self.buffer(file_id).is_some()
    }

    /// Removes `uri` from the file system; `None` when it was not there.
    pub fn delete(&mut self, uri: &str) -> (r: Option<()>)
        requires
            old(self).wf(),
            old(self).spec_paths().len() < u32::MAX,
        ensures
            final(self).wf(),
            ({
                let id = match find_path(old(self).spec_paths(), uri@, 0) {
                    Some(k) => k,
                    None => old(self).spec_paths().len() as int,
                };
                &&& final(self).spec_paths() == if find_path(old(self).spec_paths(), uri@, 0) is Some {
                    old(self).spec_paths()
                } else {
                    old(self).spec_paths().push(uri@)
                }
                &&& (r is Some) == (0 <= id < old(self).spec_contents().len() && old(self).spec_contents()[id] is Some)
                &&& final(self).spec_contents() == if find_path(old(self).spec_paths(), uri@, 0) is Some {
                    old(self).spec_contents().update(id, None)
                } else {
                    old(self).spec_contents().push(None)
                }
            }),
    {
        proof {
            lemma_find_path(old(self).spec_paths(), uri@, 0);
        }
        let id = self.file_id(uri);
        let i = id.id as usize;
        let ghost c0 = self.spec_contents();
        assert(self.fs.buffers@.len() == c0.len());
        assert(c0[i as int] is None <==> self.fs.buffers@[i as int] is None);
        if self.fs.buffers[i].is_none() {
            assert(c0.update(i as int, None) =~= c0);
            return None;
        }
        self.fs.buffers.set(i, None);
        assert(self.spec_contents() =~= c0.update(i as int, None));
        Some(())
    }

    /// The path of the file `id`.
    pub fn path(&self, id: FileId) -> (r: String)
        requires
            self.wf(),
            id.id < self.spec_paths().len(),
        ensures
            r@ == self.spec_paths()[id.id as int],
    {
        self.paths[id.id as usize].clone()
    }

    /// The paths of the files in the file system, by id.
    pub fn files(&self) -> (r: Vec<String>)
        requires
            self.wf(),
        ensures
            r@.map_values(|p: String| p@) == Seq::new(self.spec_paths().len(), |i: int| i).filter(
                |i: int| self.spec_contents()[i] is Some,
            ).map_values(|i: int| self.spec_paths()[i]),
    {
        let ghost all = Seq::new(self.spec_paths().len(), |i: int| i);
        let ghost keep = |i: int| self.spec_contents()[i] is Some;
        let mut r: Vec<String> = Vec::new();
        let mut i: usize = 0;
        while i < self.paths.len()
            invariant
                self.wf(),
                i <= self.paths.len(),
                all == Seq::new(self.spec_paths().len(), |i: int| i),
                keep == (|i: int| self.spec_contents()[i] is Some),
                r@.map_values(|p: String| p@) == all.take(i as int).filter(keep).map_values(
                    |i: int| self.spec_paths()[i],
                ),
            decreases self.paths.len() - i,
        {
            let ghost before = r@;
            proof {
                assert(all.take(i + 1).drop_last() =~= all.take(i as int));
                reveal(Seq::filter);
            }
            if self.fs.buffers[i].is_some() {
                r.push(self.paths[i].clone());
                assert(r@.map_values(|p: String| p@) =~= before.map_values(|p: String| p@).push(self.spec_paths()[i as int]));
            } else {
                assert(r@ =~= before);
            }
            i = i + 1;
        }
        assert(all.take(i as int) =~= all);
        r
    }
}

/// Preprocesses the file `file_id` (see [`spec_preprocess`]): the tokens
/// that pass and the errors, or `None` when the file is not in the file
/// system, does not lex, or preprocessing faults.
pub fn preprocess(analyzer: &Analyzer, file_id: FileId) -> (r: Option<
    (Vec<(FileId, Token, Span)>, Vec<((FileId, Span), String)>),
>)
    requires
        analyzer.wf(),
    ensures
        match spec_preprocess(analyzer.spec_paths(), analyzer.spec_contents(), file_id) {
            None => r is None,
            Some(fin) => r matches Some((v, e)) && pp_tokens_view(v@) == fin.result && errors_view(e@) == fin.errors,
        },
{
    let lexemes = match analyzer.lexed(file_id) {
        Some(l) => l,
        None => {
            return None;
        },
    };
    let mut input: std::collections::VecDeque<(FileId, Token, Span)> = std::collections::VecDeque::new();
    let mut k: usize = 0;
    while k < lexemes.len()
        invariant
            k <= lexemes.len(),
            pp_tokens_view(input@) == with_file(file_id, lexemes_view(lexemes@).take(k as int)),
        decreases lexemes.len() - k,
    {
        let ghost before = input@;
        let tk = lexemes[k].0.clone();
        input.push_back((file_id, tk, lexemes[k].1));
        assert(pp_tokens_view(input@) =~= with_file(file_id, lexemes_view(lexemes@).take(k + 1))) by {
            assert(pp_tokens_view(input@) =~= pp_tokens_view(before).push(pp_tokens_view(input@)[k as int]));
        }
        k = k + 1;
    }
    assert(lexemes_view(lexemes@).take(k as int) =~= lexemes_view(lexemes@));
    let sources = analyzer.sources();
    let mut pp = PreprocessorState::new();
    proof {
        let toks = lexemes_view(lexemes@);
        assert(pp.model(pp_tokens_view(input@), seq![], None, None) == initial_run(file_id, toks));
    }
    match pp.preprocess(&mut input, &sources) {
        Some(v) => Some((v, pp.into_errors())),
        None => None,
    }
}

impl Analyzer {
    /// The preprocessed tokens of the file `file_id` (see [`preprocess`]).
    pub fn preprocessed(&self, file_id: FileId) -> (r: Option<Vec<(FileId, Token, Span)>>)
        requires
            self.wf(),
        ensures
            match spec_preprocess(self.spec_paths(), self.spec_contents(), file_id) {
                None => r is None,
                Some(fin) => r matches Some(v) && pp_tokens_view(v@) == fin.result,
            },
    {
        match preprocess(self, file_id) {
            Some((v, _)) => Some(v),
            None => None,
        }
    }

    /// The diagnostics of the file `id` (see [`spec_diagnostics`]).
    pub fn diagnostics(&self, id: FileId) -> (r: Vec<Diagnostic>)
        requires
            self.wf(),
        ensures
            r@.map_values(|d: Diagnostic| diagnostic_view(d)) == spec_diagnostics(
                self.spec_paths(),
                self.spec_contents(),
                id,
            ),
    {
        let buf = match self.buffer(id) {
            Some(b) => b,
            None => {
                return Vec::new();
            },
        };
        let mut r: Vec<Diagnostic> = match lex(id, buf) {
            Some(l) => l.diagnostics,
            None => Vec::new(),
        };
        let ghost lexing = r@.map_values(|d: Diagnostic| diagnostic_view(d));
        proof {
            match spec_lex(buf.contents@) {
                Some((_, ds)) => {
                    assert(lexing =~= ds.map_values(|m: (Span, Seq<char>)| (id, m.0, Severity::Error, m.1))) by {
                        assert forall|k: int| 0 <= k < r@.len() implies r@[k].file == id && r@[k].severity
                            == Severity::Error by {}
                    }
                },
                None => {
                    assert(lexing =~= Seq::<(FileId, Span, Severity, Seq<char>)>::empty());
                },
            }
        }
        let errors = match preprocess(self, id) {
            Some((_, e)) => e,
            None => Vec::new(),
        };
        let ghost pre = errors_view(errors@).map_values(
            |e: ((FileId, Span), Seq<char>)| (e.0.0, e.0.1, Severity::Error, e.1),
        );
        let mut k: usize = 0;
        while k < errors.len()
            invariant
                k <= errors.len(),
                pre == errors_view(errors@).map_values(
                    |e: ((FileId, Span), Seq<char>)| (e.0.0, e.0.1, Severity::Error, e.1),
                ),
                r@.map_values(|d: Diagnostic| diagnostic_view(d)) == lexing + pre.take(k as int),
            decreases errors.len() - k,
        {
            let ghost before = r@;
            let ((file, location), message) = &errors[k];
            r.push(Diagnostic { file: *file, location: *location, severity: Severity::Error, message: message.clone() });
            assert(r@.map_values(|d: Diagnostic| diagnostic_view(d)) =~= lexing + pre.take(k + 1)) by {
                assert(r@.map_values(|d: Diagnostic| diagnostic_view(d)) =~= before.map_values(
                    |d: Diagnostic| diagnostic_view(d),
                ).push(pre[k as int]));
            }
            k = k + 1;
        }
        assert(pre.take(k as int) =~= pre);
        proof {
            if spec_preprocess(self.spec_paths(), self.spec_contents(), id) is None {
                assert(pre =~= Seq::<(FileId, Span, Severity, Seq<char>)>::empty());
            }
        }
        r
    }
}

} // verus!
