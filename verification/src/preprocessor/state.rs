//! The preprocessor proper: a state machine over a queue of tokens.
//!
//! Directives are interpreted as they are taken from the queue; `#include`
//! places the tokens of the included file at the front of the queue, and a
//! false condition switches to a mode that skips tokens up to the matching
//! `#elif`, `#else` or `#endif`.
use vstd::prelude::*;

use std::collections::VecDeque;

use super::evaluate::{
    define, interpret_condition, interpret_pp_expr, spec_condition, spec_value, undefine,
    Definitions, SpecDefinitions,
};
use super::{PreprocessorDirective, PreprocessorExpression, SpecDirective, SpecExpr};
use crate::base_abstractions::{FileId, Span};
use crate::lexer::{lexemes_view, SpecToken, Token};

verus! {

/// A token with the file it comes from.
pub type SpecPPToken = (FileId, SpecToken, Span);

/// A directive with the file and span it comes from.
pub type SpecResolved = (FileId, SpecDirective, Span);

/// An open conditional: its `#if`, the `#elif`s and `#else` seen so far, and
/// whether one of its branches has been taken.
pub type SpecCond = (SpecResolved, Seq<SpecResolved>, bool);

/// An error: the file and span it concerns, and the message.
pub type SpecError = ((FileId, Span), Seq<char>);

/// The files that `#include` can name: path, and tokens unless the file is
/// missing. The file at index `i` has the id `i`.
pub type SpecSources = Seq<(Seq<char>, Option<Seq<(SpecToken, Span)>>)>;

/// The whole state of a preprocessing run.
pub struct SpecPP {
    pub defs: SpecDefinitions,
    pub errors: Seq<SpecError>,
    /// Files that have been included, or left for another file.
    pub opened: Set<FileId>,
    pub cond: Seq<SpecCond>,
    /// The tokens still to process.
    pub input: Seq<SpecPPToken>,
    /// The tokens that pass.
    pub result: Seq<SpecPPToken>,
    /// The file of the token processed last.
    pub prev: Option<FileId>,
    /// While skipping a branch: the depth of the conditional whose branch is skipped.
    pub skip: Option<int>,
}

pub open spec fn msg_recursive(path: Seq<char>) -> Seq<char> {
    "Recursive import of "@ + path
}

pub open spec fn msg_not_found(path: Seq<char>) -> Seq<char> {
    "Could not find "@ + path
}

pub open spec fn msg_unrecognised(name: Seq<char>) -> Seq<char> {
    "Unrecognised directive: "@ + name
}

/// The index of the first source file with path `path`.
pub open spec fn source_index(srcs: SpecSources, path: Seq<char>, i: int) -> Option<int>
    decreases srcs.len() - i,
{
    if !(0 <= i < srcs.len()) {
        None
    } else if srcs[i].0 == path {
        Some(i)
    } else {
        source_index(srcs, path, i + 1)
    }
}

/// The tokens of an included file as they end up at the front of the queue:
/// each is pushed to the front in turn, so they come out in reverse order.
pub open spec fn pushed_front(fid: FileId, toks: Seq<(SpecToken, Span)>) -> Seq<SpecPPToken>
    decreases toks.len(),
{
    if toks.len() == 0 {
        seq![]
    } else {
        seq![(fid, toks.last().0, toks.last().1)] + pushed_front(fid, toks.drop_last())
    }
}

/// Reports `msg` at `(file, span)`.
pub open spec fn with_error(st: SpecPP, file: FileId, span: Span, msg: Seq<char>) -> SpecPP {
    SpecPP { errors: st.errors.push(((file, span), msg)), ..st }
}

/// Reports an unterminated conditional on top of the stack, if there is one.
/// `None` for a top entry that is not an `#if`, `#elif` or `#else`.
pub open spec fn check_empty_cond_stack(st: SpecPP) -> Option<SpecPP> {
    if st.cond.len() == 0 {
        Some(st)
    } else {
        let top = st.cond.last().0;
        match top.1 {
            SpecDirective::If(_) => Some(with_error(st, top.0, top.2, "This #if directive lacks a corresponding #endif"@)),
            SpecDirective::ElseIf(_) => Some(with_error(st, top.0, top.2, "This #elif directive lacks a corresponding #endif"@)),
            SpecDirective::Else => Some(with_error(st, top.0, top.2, "This #else directive lacks a corresponding #endif"@)),
            _ => None,
        }
    }
}

/// Processing directive `d` at `(id, span)`; `st` already has it taken from the queue.
pub open spec fn directive_step(srcs: SpecSources, st: SpecPP, id: FileId, d: SpecDirective, span: Span) -> Option<SpecPP> {
    match d {
        SpecDirective::Include(_, path) => match source_index(srcs, path, 0) {
            Some(i) => {
                let fid = FileId { id: i as u32 };
                if st.opened.contains(fid) {
                    Some(with_error(st, id, span, msg_recursive(path)))
                } else {
                    match srcs[i].1 {
                        Some(toks) => Some(
                            SpecPP { opened: st.opened.insert(fid), input: pushed_front(fid, toks) + st.input, ..st },
                        ),
                        None => Some(with_error(st, id, span, msg_not_found(path))),
                    }
                }
            },
            None => Some(with_error(st, id, span, msg_not_found(path))),
        },
        SpecDirective::If(c) => match spec_condition(st.defs, c) {
            None => None,
            Some(b) => {
                let cond = st.cond.push(((id, d, span), seq![], b));
                Some(SpecPP { cond, skip: if b { None } else { Some(cond.len() as int) }, ..st })
            },
        },
        SpecDirective::ElseIf(c) => if st.cond.len() == 0 {
            Some(with_error(st, id, span, "An #elif cannot follow an #else"@))
        } else {
            let (tk, branches, done) = st.cond.last();
            let taken = if done { Some(false) } else { spec_condition(st.defs, c) };
            match taken {
                None => None,
                Some(inc) => {
                    let cond = st.cond.drop_last().push((tk, branches.push((id, d, span)), done || inc));
                    Some(SpecPP { cond, skip: if inc { None } else { Some(cond.len() as int) }, ..st })
                },
            }
        },
        SpecDirective::Else => if st.cond.len() == 0 {
            Some(with_error(st, id, span, "Dangling #else"@))
        } else {
            let (tk, branches, done) = st.cond.last();
            let st1 = if branches.len() > 0 && branches.last().1 is Else {
                with_error(st, id, span, "This conditional already has an #else"@)
            } else {
                st
            };
            let cond = st1.cond.drop_last().push((tk, branches.push((id, d, span)), true));
            Some(SpecPP { cond, skip: if done { Some(cond.len() as int) } else { None }, ..st1 })
        },
        SpecDirective::EndIf => if st.cond.len() == 0 {
            Some(with_error(st, id, span, "Dangling #endif"@))
        } else {
            Some(SpecPP { cond: st.cond.drop_last(), ..st })
        },
        SpecDirective::Define(k, v) => Some(SpecPP { defs: define(st.defs, k, v), ..st }),
        SpecDirective::Undef(k) => Some(SpecPP { defs: undefine(st.defs, k), ..st }),
        SpecDirective::Pragma(_) => None,
        SpecDirective::Other(name, _) => Some(with_error(st, id, span, msg_unrecognised(name))),
    }
}

/// One step of the main mode: the front token is taken and processed.
pub open spec fn main_step(srcs: SpecSources, st: SpecPP) -> Option<SpecPP> {
    let (id, tk, span) = st.input[0];
    let opened = match st.prev {
        Some(f) => if f != id { st.opened.insert(f) } else { st.opened },
        None => st.opened,
    };
    let base = SpecPP { opened, input: st.input.drop_first(), prev: Some(id), ..st };
    match tk {
        SpecToken::PreprocessorDirective(d) => directive_step(srcs, base, id, d, span),
        SpecToken::Whitespace => if st.result.len() > 0 && st.result.last().0 == id
            && st.result.last().1 is Whitespace {
            let merged = Span { start: st.result.last().2.start, end: span.end };
            Some(SpecPP { result: st.result.drop_last().push((id, SpecToken::Whitespace, merged)), ..base })
        } else {
            Some(SpecPP { result: st.result.push((id, tk, span)), ..base })
        },
        _ => Some(SpecPP { result: st.result.push((id, tk, span)), ..base }),
    }
}

/// One step of the skipping mode, skipping the branch of the conditional at depth `level`.
pub open spec fn skip_step(st: SpecPP, level: int) -> Option<SpecPP> {
    if st.input.len() == 0 {
        if st.cond.len() == 0 {
            None
        } else {
            match check_empty_cond_stack(st) {
                None => None,
                Some(st1) => Some(SpecPP { cond: st1.cond.take(level - 1), skip: None, ..st1 }),
            }
        }
    } else {
        let (id, tk, span) = st.input[0];
        let rest = SpecPP { input: st.input.drop_first(), ..st };
        match tk {
            SpecToken::PreprocessorDirective(d) => match d {
                SpecDirective::If(_) => Some(SpecPP { cond: st.cond.push(((id, d, span), seq![], false)), ..rest }),
                SpecDirective::ElseIf(_) => if st.cond.len() == level {
                    Some(SpecPP { skip: None, ..st })
                } else if st.cond.len() > level {
                    Some(rest)
                } else {
                    None
                },
                SpecDirective::Else => if st.cond.len() == level {
                    Some(SpecPP { skip: None, ..st })
                } else if st.cond.len() > level {
                    Some(rest)
                } else {
                    None
                },
                SpecDirective::EndIf => if st.cond.len() == 0 {
                    None
                } else {
                    let cond = st.cond.drop_last();
                    Some(SpecPP { cond, skip: if cond.len() < level { None } else { st.skip }, ..rest })
                },
                _ => Some(rest),
            },
            _ => Some(rest),
        }
    }
}

/// One step of the run from a state that is not final.
pub open spec fn spec_step(srcs: SpecSources, st: SpecPP) -> Option<SpecPP> {
    match st.skip {
        Some(level) => skip_step(st, level),
        None => main_step(srcs, st),
    }
}

/// The number of source files that have not been opened.
pub open spec fn unopened(n: int, opened: Set<FileId>) -> nat
    decreases n,
{
    if n <= 0 {
        0
    } else {
        unopened(n - 1, opened) + if opened.contains(FileId { id: (n - 1) as u32 }) { 0nat } else { 1nat }
    }
}

/// What decreases with every step: unopened files, then queued tokens, then the mode.
pub open spec fn measure_lt(srcs: SpecSources, a: SpecPP, b: SpecPP) -> bool {
    let ua = unopened(srcs.len() as int, a.opened);
    let ub = unopened(srcs.len() as int, b.opened);
    let fa: int = if a.skip is Some { 1 } else { 0 };
    let fb: int = if b.skip is Some { 1 } else { 0 };
    ua < ub || (ua == ub && (a.input.len() < b.input.len() || (a.input.len() == b.input.len() && fa < fb)))
}

/// Runs from `st` to the end of the queue, then reports an unterminated
/// conditional. `None` is a fault: an arithmetic fault or endless macro
/// expansion in a condition, a `#pragma`, or a broken conditional stack.
pub open spec fn spec_pp_run(srcs: SpecSources, st: SpecPP) -> Option<SpecPP>
    decreases unopened(srcs.len() as int, st.opened), st.input.len(), if st.skip is Some { 1int } else { 0int },
{
    if st.skip is None && st.input.len() == 0 {
        check_empty_cond_stack(st)
    } else {
        match spec_step(srcs, st) {
            None => None,
            Some(st2) => if measure_lt(srcs, st2, st) {
                spec_pp_run(srcs, st2)
            } else {
                None
            },
        }
    }
}

proof fn lemma_unopened_insert(n: int, s: Set<FileId>, x: FileId)
    ensures
        unopened(n, s.insert(x)) <= unopened(n, s),
    decreases n,
{
    if n > 0 {
        lemma_unopened_insert(n - 1, s, x);
    }
}

proof fn lemma_unopened_insert_new(n: int, s: Set<FileId>, i: int)
    requires
        0 <= i < n <= u32::MAX,
        !s.contains(FileId { id: i as u32 }),
    ensures
        unopened(n, s.insert(FileId { id: i as u32 })) < unopened(n, s),
    decreases n,
{
    let x = FileId { id: i as u32 };
    if n - 1 > i {
        lemma_unopened_insert_new(n - 1, s, i);
        assert(FileId { id: (n - 1) as u32 } != x);
    } else {
        lemma_unopened_insert(n - 1, s, x);
    }
}

proof fn lemma_source_index(srcs: SpecSources, path: Seq<char>, i: int)
    ensures
        source_index(srcs, path, i) matches Some(k) ==> 0 <= k < srcs.len() && srcs[k].0 == path,
    decreases srcs.len() - i,
{
    if 0 <= i < srcs.len() && srcs[i].0 != path {
        lemma_source_index(srcs, path, i + 1);
    }
}

/// Every step of a run goes down in [`measure_lt`].
pub proof fn lemma_step_decreases(srcs: SpecSources, st: SpecPP)
    requires
        srcs.len() <= u32::MAX,
        !(st.skip is None && st.input.len() == 0),
    ensures
        spec_step(srcs, st) matches Some(st2) ==> measure_lt(srcs, st2, st),
{
    match st.skip {
        Some(level) => {},
        None => {
            let (id, tk, span) = st.input[0];
            let opened = match st.prev {
                Some(f) => if f != id { st.opened.insert(f) } else { st.opened },
                None => st.opened,
            };
            if let Some(f) = st.prev {
                lemma_unopened_insert(srcs.len() as int, st.opened, f);
            }
            if let SpecToken::PreprocessorDirective(SpecDirective::Include(_, path)) = tk {
                lemma_source_index(srcs, path, 0);
                if let Some(i) = source_index(srcs, path, 0) {
                    if !opened.contains(FileId { id: i as u32 }) {
                        lemma_unopened_insert_new(srcs.len() as int, opened, i);
                    }
                }
            }
        },
    }
}


/// Whether `toks`, read inside a skipped branch with `d` conditionals opened in it so far, keeps
/// to that branch: every `#endif` closes a conditional opened in the branch, and `#elif` and
/// `#else` only come inside such a conditional.
pub open spec fn nested_in_branch(toks: Seq<SpecPPToken>, d: int) -> bool
    decreases toks.len(),
{
    if toks.len() == 0 {
        true
    } else {
        match toks[0].1 {
            SpecToken::PreprocessorDirective(SpecDirective::If(_)) => nested_in_branch(toks.drop_first(), d + 1),
            SpecToken::PreprocessorDirective(SpecDirective::EndIf) => d > 0 && nested_in_branch(toks.drop_first(), d - 1),
            SpecToken::PreprocessorDirective(SpecDirective::ElseIf(_)) => d > 0 && nested_in_branch(toks.drop_first(), d),
            SpecToken::PreprocessorDirective(SpecDirective::Else) => d > 0 && nested_in_branch(toks.drop_first(), d),
            _ => nested_in_branch(toks.drop_first(), d),
        }
    }
}

/// The number of conditionals left open after `toks`, starting from `d`.
pub open spec fn open_after(toks: Seq<SpecPPToken>, d: int) -> int
    decreases toks.len(),
{
    if toks.len() == 0 {
        d
    } else {
        match toks[0].1 {
            SpecToken::PreprocessorDirective(SpecDirective::If(_)) => open_after(toks.drop_first(), d + 1),
            SpecToken::PreprocessorDirective(SpecDirective::EndIf) => open_after(toks.drop_first(), d - 1),
            _ => open_after(toks.drop_first(), d),
        }
    }
}

/// A skipped branch ends at the `#endif` that matches it, whatever conditionals are nested in
/// the branch: a run that skips a branch whose body `body` opens and closes its own
/// conditionals, followed by the `#endif` of the skipped conditional, goes on exactly as if the
/// body and that `#endif` were not there and the conditional were closed. Nothing of the body
/// reaches the output, and no error is reported for it.
pub proof fn lemma_skip_nested(
    srcs: SpecSources,
    st: SpecPP,
    body: Seq<SpecPPToken>,
    endif: SpecPPToken,
    rest: Seq<SpecPPToken>,
)
    requires
        st.skip == Some(st.cond.len() as int),
        st.cond.len() >= 1,
        nested_in_branch(body, 0),
        open_after(body, 0) == 0,
        endif.1 == SpecToken::PreprocessorDirective(SpecDirective::EndIf),
        st.input == body + seq![endif] + rest,
    ensures
        spec_pp_run(srcs, st) == spec_pp_run(
            srcs,
            SpecPP { cond: st.cond.drop_last(), input: rest, skip: None, ..st },
        ),
{
    assert(st.cond.take(st.cond.len() as int) =~= st.cond);
    lemma_skip_nested_from(srcs, st, st.cond, body, endif, rest, 0);
}

/// A conditional whose condition is false contributes nothing: a run that meets `#if c`, with `c`
/// false under the current definitions, followed by a body that opens and closes its own
/// conditionals and by the `#endif` of `c`, goes on from what follows the `#endif`, with the same
/// definitions, errors and output.
pub proof fn lemma_false_if_skipped(
    srcs: SpecSources,
    st: SpecPP,
    tok: SpecPPToken,
    c: SpecExpr,
    body: Seq<SpecPPToken>,
    endif: SpecPPToken,
    rest: Seq<SpecPPToken>,
)
    requires
        srcs.len() <= u32::MAX,
        st.skip is None,
        tok.1 == SpecToken::PreprocessorDirective(SpecDirective::If(c)),
        spec_condition(st.defs, c) == Some(false),
        nested_in_branch(body, 0),
        open_after(body, 0) == 0,
        endif.1 == SpecToken::PreprocessorDirective(SpecDirective::EndIf),
        st.input == seq![tok] + body + seq![endif] + rest,
    ensures
        spec_pp_run(srcs, st) == spec_pp_run(
            srcs,
            SpecPP {
                opened: match st.prev {
                    Some(f) => if f != tok.0 { st.opened.insert(f) } else { st.opened },
                    None => st.opened,
                },
                input: rest,
                prev: Some(tok.0),
                ..st
            },
        ),
{
    lemma_step_decreases(srcs, st);
    assert(st.input[0] == tok);
    assert(st.input.drop_first() =~= body + seq![endif] + rest);
    let st2 = spec_step(srcs, st).unwrap();
    assert(st2.cond == st.cond.push(((tok.0, SpecDirective::If(c), tok.2), seq![], false)));
    lemma_skip_nested(srcs, st2, body, endif, rest);
    assert(st2.cond.drop_last() =~= st.cond);
}

proof fn lemma_skip_nested_from(
    srcs: SpecSources,
    st: SpecPP,
    c0: Seq<SpecCond>,
    body: Seq<SpecPPToken>,
    endif: SpecPPToken,
    rest: Seq<SpecPPToken>,
    d: int,
)
    requires
        c0.len() >= 1,
        st.skip == Some(c0.len() as int),
        d >= 0,
        st.cond.len() == c0.len() + d,
        st.cond.take(c0.len() as int) == c0,
        nested_in_branch(body, d),
        open_after(body, d) == 0,
        endif.1 == SpecToken::PreprocessorDirective(SpecDirective::EndIf),
        st.input == body + seq![endif] + rest,
    ensures
        spec_pp_run(srcs, st) == spec_pp_run(srcs, SpecPP { cond: c0.drop_last(), input: rest, skip: None, ..st }),
    decreases body.len(),
{
    let level = c0.len() as int;
    let st2 = spec_step(srcs, st).unwrap();
    if body.len() == 0 {
        assert(st.input[0] == endif);
        assert(st.input.drop_first() =~= rest);
        assert(st.cond =~= c0);
        assert(st2 == SpecPP { cond: c0.drop_last(), input: rest, skip: None, ..st });
        assert(measure_lt(srcs, st2, st));
    } else {
        let tok = body[0];
        assert(st.input[0] == tok);
        assert(st.input.drop_first() =~= body.drop_first() + seq![endif] + rest);
        match tok.1 {
            SpecToken::PreprocessorDirective(SpecDirective::If(_)) => {
                assert(st2.cond.take(level) =~= c0);
                lemma_skip_nested_from(srcs, st2, c0, body.drop_first(), endif, rest, d + 1);
            },
            SpecToken::PreprocessorDirective(SpecDirective::EndIf) => {
                assert(st2.cond.take(level) =~= c0);
                lemma_skip_nested_from(srcs, st2, c0, body.drop_first(), endif, rest, d - 1);
            },
            SpecToken::PreprocessorDirective(SpecDirective::ElseIf(_)) => {
                lemma_skip_nested_from(srcs, st2, c0, body.drop_first(), endif, rest, d);
            },
            SpecToken::PreprocessorDirective(SpecDirective::Else) => {
                lemma_skip_nested_from(srcs, st2, c0, body.drop_first(), endif, rest, d);
            },
            _ => {
                lemma_skip_nested_from(srcs, st2, c0, body.drop_first(), endif, rest, d);
            },
        }
        assert(SpecPP { cond: c0.drop_last(), input: rest, skip: None, ..st2 } == SpecPP {
            cond: c0.drop_last(),
            input: rest,
            skip: None,
            ..st
        });
        assert(measure_lt(srcs, st2, st));
    }
}

/// Whether the tokens at `i` and `i + 1` are whitespace of one file.
pub open spec fn adjacent_whitespace(r: Seq<SpecPPToken>, i: int) -> bool {
    r[i].0 == r[i + 1].0 && r[i].1 is Whitespace && r[i + 1].1 is Whitespace
}

/// What the output of preprocessing keeps true: no directive passes, and no two neighbouring
/// whitespace tokens belong to one file.
pub open spec fn output_ok(r: Seq<SpecPPToken>) -> bool {
    &&& forall|i: int| 0 <= i < r.len() ==> !((#[trigger] r[i]).1 is PreprocessorDirective)
    &&& forall|i: int| 0 <= i && i + 1 < r.len() ==> !#[trigger] adjacent_whitespace(r, i)
}

/// Whether `b` extends `a`.
pub open spec fn extends<A>(a: Seq<A>, b: Seq<A>) -> bool {
    a.len() <= b.len() && b.take(a.len() as int) == a
}

proof fn lemma_extends_push<A>(a: Seq<A>, x: A)
    ensures
        extends(a, a.push(x)),
{
    assert(a.push(x).take(a.len() as int) =~= a);
}

proof fn lemma_extends_trans<A>(a: Seq<A>, b: Seq<A>, c: Seq<A>)
    requires
        extends(a, b),
        extends(b, c),
    ensures
        extends(a, c),
{
    assert(c.take(a.len() as int) =~= b.take(a.len() as int));
}

/// A step keeps the output as [`output_ok`] says, and only adds errors.
proof fn lemma_step_invariants(srcs: SpecSources, st: SpecPP)
    requires
        output_ok(st.result),
        !(st.skip is None && st.input.len() == 0),
    ensures
        spec_step(srcs, st) matches Some(st2) ==> output_ok(st2.result) && extends(st.errors, st2.errors),
{
    assert(extends(st.errors, st.errors)) by {
        assert(st.errors.take(st.errors.len() as int) =~= st.errors);
    }
    match spec_step(srcs, st) {
        None => {},
        Some(st2) => {
            match st.skip {
                Some(level) => {
                    if st.input.len() == 0 {
                        if let Some(st1) = check_empty_cond_stack(st) {
                            if st.cond.len() > 0 {
                                let top = st.cond.last().0;
                                lemma_extends_push(st.errors, ((top.0, top.2), st1.errors.last().1));
                            }
                        }
                    }
                },
                None => {
                    let (id, tk, span) = st.input[0];
                    let r = st.result;
                    match tk {
                        SpecToken::PreprocessorDirective(d) => {
                            if st2.errors != st.errors {
                                assert(st2.errors == st.errors.push(st2.errors.last()));
                                lemma_extends_push(st.errors, st2.errors.last());
                            }
                        },
                        SpecToken::Whitespace => {
                            if r.len() > 0 && r.last().0 == id && r.last().1 is Whitespace {
                                let merged = Span { start: r.last().2.start, end: span.end };
                                let r2 = r.drop_last().push((id, SpecToken::Whitespace, merged));
                                assert forall|i: int| 0 <= i && i + 1 < r2.len() implies !#[trigger] adjacent_whitespace(r2, i) by {
                                    if i + 1 < r.len() - 1 {
                                        assert(!adjacent_whitespace(r, i));
                                    } else {
                                        assert(!adjacent_whitespace(r, i));
                                    }
                                }
                                assert forall|i: int| 0 <= i < r2.len() implies !((#[trigger] r2[i]).1 is PreprocessorDirective) by {
                                    if i < r.len() - 1 {
                                        assert(r2[i] == r[i]);
                                    }
                                }
                            } else {
                                let r2 = r.push((id, tk, span));
                                assert forall|i: int| 0 <= i && i + 1 < r2.len() implies !#[trigger] adjacent_whitespace(r2, i) by {
                                    if i + 1 < r.len() {
                                        assert(!adjacent_whitespace(r, i));
                                    }
                                }
                                assert forall|i: int| 0 <= i < r2.len() implies !((#[trigger] r2[i]).1 is PreprocessorDirective) by {
                                    if i < r.len() {
                                        assert(r2[i] == r[i]);
                                    }
                                }
                            }
                        },
                        _ => {
                            let r2 = r.push((id, tk, span));
                            assert forall|i: int| 0 <= i && i + 1 < r2.len() implies !#[trigger] adjacent_whitespace(r2, i) by {
                                if i + 1 < r.len() {
                                    assert(!adjacent_whitespace(r, i));
                                }
                            }
                            assert forall|i: int| 0 <= i < r2.len() implies !((#[trigger] r2[i]).1 is PreprocessorDirective) by {
                                if i < r.len() {
                                    assert(r2[i] == r[i]);
                                }
                            }
                        },
                    }
                },
            }
        },
    }
}

/// What every preprocessing run keeps: a run from an output without directives and without two
/// neighbouring whitespace tokens of one file ends with such an output, and it only adds errors.
pub proof fn lemma_pp_run_invariants(srcs: SpecSources, st: SpecPP)
    requires
        output_ok(st.result),
    ensures
        spec_pp_run(srcs, st) matches Some(fin) ==> output_ok(fin.result) && extends(st.errors, fin.errors),
    decreases unopened(srcs.len() as int, st.opened), st.input.len(), if st.skip is Some { 1int } else { 0int },
{
    if st.skip is None && st.input.len() == 0 {
        assert(st.errors.take(st.errors.len() as int) =~= st.errors);
        if st.cond.len() > 0 {
            if let Some(fin) = check_empty_cond_stack(st) {
                lemma_extends_push(st.errors, fin.errors.last());
            }
        }
    } else {
        lemma_step_invariants(srcs, st);
        match spec_step(srcs, st) {
            None => {},
            Some(st2) => if measure_lt(srcs, st2, st) {
                lemma_pp_run_invariants(srcs, st2);
                if let Some(fin) = spec_pp_run(srcs, st2) {
                    lemma_extends_trans(st.errors, st2.errors, fin.errors);
                }
            },
        }
    }
}

/// A file that `#include` can name: its path, and its tokens unless it is
/// missing.
pub struct SourceFile {
    pub path: String,
    pub lexemes: Option<Vec<(Token, Span)>>,
}

/// The model of the files that `#include` can name.
pub open spec fn sources_view(v: Seq<SourceFile>) -> SpecSources {
    v.map_values(
        |f: SourceFile|
            (
                f.path@,
                match f.lexemes {
                    Some(l) => Some(lexemes_view(l@)),
                    None => None,
                },
            ),
    )
}

/// A directive with the file and span it comes from.
pub type ResolvedToken = (FileId, PreprocessorDirective, Span);

/// An entry of the conditional stack: the opening `#if`, the branches seen
/// since, and whether a branch has been taken.
pub type CondEntry = (ResolvedToken, Vec<ResolvedToken>, bool);

pub open spec fn resolved_view(r: ResolvedToken) -> SpecResolved {
    (r.0, r.1@, r.2)
}

pub open spec fn cond_entry_view(c: CondEntry) -> SpecCond {
    (resolved_view(c.0), c.1@.map_values(|r: ResolvedToken| resolved_view(r)), c.2)
}

/// The model of a list of errors.
pub open spec fn errors_view(v: Seq<((FileId, Span), String)>) -> Seq<SpecError> {
    v.map_values(|e: ((FileId, Span), String)| (e.0, e.1@))
}

/// The model of a queue or list of tokens with their files.
pub open spec fn pp_tokens_view(v: Seq<(FileId, Token, Span)>) -> Seq<SpecPPToken> {
    v.map_values(|t: (FileId, Token, Span)| (t.0, t.1@, t.2))
}

/// What a preprocessing run keeps from one call to the next.
pub struct PreprocessorState {
    definitions: Definitions,
    errors: Vec<((FileId, Span), String)>,
    state: Vec<FileId>,
    conditional_stack: Vec<CondEntry>,
}

impl PreprocessorState {
    /// The macro definitions.
    pub closed spec fn defs(&self) -> SpecDefinitions {
        self.definitions@
    }

    /// The files that have been included or left.
    pub closed spec fn opened(&self) -> Set<FileId> {
        self.state@.to_set()
    }

    /// The open conditionals, innermost last.
    pub closed spec fn cond(&self) -> Seq<SpecCond> {
        self.conditional_stack@.map_values(|c: CondEntry| cond_entry_view(c))
    }

    /// The errors reported so far.
    pub closed spec fn errs(&self) -> Seq<SpecError> {
        errors_view(self.errors@)
    }

    /// The errors reported so far, handed over.
    pub fn into_errors(self) -> (r: Vec<((FileId, Span), String)>)
        ensures
            errors_view(r@) == self.errs(),
    {
        self.errors
    }

    /// The errors reported so far: the file and span each concerns, and its message.
    pub fn errors(&self) -> (r: &Vec<((FileId, Span), String)>)
        ensures
            errors_view(r@) == self.errs(),
    {
        &self.errors
    }

    /// The model of a run from this state.
    pub open spec fn model(
        &self,
        input: Seq<SpecPPToken>,
        result: Seq<SpecPPToken>,
        prev: Option<FileId>,
        skip: Option<int>,
    ) -> SpecPP {
        SpecPP {
            defs: self.defs(),
            errors: self.errs(),
            opened: self.opened(),
            cond: self.cond(),
            input,
            result,
            prev,
            skip,
        }
    }

    /// Whether this state holds what `st` keeps beyond the run.
    pub open spec fn holds(&self, st: SpecPP) -> bool {
        &&& self.defs() == st.defs
        &&& self.errs() == st.errors
        &&& self.opened() == st.opened
        &&& self.cond() == st.cond
    }

    /// No definitions, no errors, no files, no open conditionals.
    pub fn new() -> (r: Self)
        ensures
            r.defs() == Seq::<(Seq<char>, Seq<char>)>::empty(),
            r.errs() == Seq::<SpecError>::empty(),
            r.opened() == Set::<FileId>::empty(),
            r.cond() == Seq::<SpecCond>::empty(),
    {
        let r = PreprocessorState {
            definitions: Definitions::new(),
            errors: Vec::new(),
            state: Vec::new(),
            conditional_stack: Vec::new(),
        };
        assert(r.opened() =~= Set::<FileId>::empty());
        assert(r.errs() =~= Seq::<SpecError>::empty());
        assert(r.cond() =~= Seq::<SpecCond>::empty());
        r
    }

    /// The value of `cond` under the current definitions (see [`spec_value`]);
    /// `None` when it names an undefined macro.
    pub fn interpret_pp_expr(&self, cond: &PreprocessorExpression) -> (r: Option<i64>)
        requires
            spec_value(self.defs(), cond@) is Some,
        ensures
            Some(r) == spec_value(self.defs(), cond@),
    {
        interpret_pp_expr(&self.definitions, cond).unwrap()
    }

    /// `cond` read as a condition under the current definitions (see
    /// [`spec_condition`]): true when its value is defined and not zero.
    pub fn interpret_condition(&self, cond: &PreprocessorExpression) -> (r: bool)
        requires
            spec_condition(self.defs(), cond@) is Some,
        ensures
            Some(r) == spec_condition(self.defs(), cond@),
    {
        interpret_condition(&self.definitions, cond).unwrap()
    }

    /// Records `msg` at `(file_id, location)`.
    fn error(&mut self, file_id: FileId, location: Span, msg: String)
        ensures
            final(self).errors@ == old(self).errors@.push(((file_id, location), msg)),
            errors_view(final(self).errors@) == errors_view(old(self).errors@).push(((file_id, location), msg@)),
            final(self).definitions == old(self).definitions,
            final(self).state == old(self).state,
            final(self).conditional_stack == old(self).conditional_stack,
    {
        self.errors.push(((file_id, location), msg));
        assert(errors_view(self.errors@) =~= errors_view(old(self).errors@).push(((file_id, location), msg@)));
    }

    /// Whether `f` has been included or left.
    fn is_opened(&self, f: FileId) -> (r: bool)
        ensures
            r == self.opened().contains(f),
    {
        let mut i: usize = 0;
        while i < self.state.len()
            invariant
                i <= self.state.len(),
                forall|k: int| 0 <= k < i ==> self.state@[k] != f,
            decreases self.state.len() - i,
        {
            if self.state[i] == f {
                return true;
            }
            i = i + 1;
        }
        false
    }

    /// Marks `f` as included or left.
    fn mark_opened(&mut self, f: FileId)
        ensures
            final(self).opened() == old(self).opened().insert(f),
            final(self).definitions == old(self).definitions,
            final(self).errors == old(self).errors,
            final(self).conditional_stack == old(self).conditional_stack,
    {
        if !self.is_opened(f) {
            self.state.push(f);
            assert forall|x: FileId| self.state@.contains(x) <==> old(self).state@.contains(x) || x == f by {
                if old(self).state@.contains(x) {
                    let k = choose|k: int| 0 <= k < old(self).state@.len() && old(self).state@[k] == x;
                    assert(self.state@[k] == x);
                }
                if x == f {
                    assert(self.state@[self.state@.len() - 1] == f);
                }
            }
        }
        assert(self.opened() =~= old(self).opened().insert(f));
    }

    /// Opens a conditional.
    fn push_cond(&mut self, e: CondEntry)
        ensures
            final(self).cond() == old(self).cond().push(cond_entry_view(e)),
            final(self).definitions == old(self).definitions,
            final(self).errors == old(self).errors,
            final(self).state == old(self).state,
    {
        let ghost e_view = cond_entry_view(e);
        self.conditional_stack.push(e);
        assert(self.cond() =~= old(self).cond().push(e_view));
    }

    /// Closes the innermost conditional and hands it back.
    fn pop_cond(&mut self) -> (e: CondEntry)
        requires
            old(self).cond().len() > 0,
        ensures
            cond_entry_view(e) == old(self).cond().last(),
            final(self).cond() == old(self).cond().drop_last(),
            final(self).definitions == old(self).definitions,
            final(self).errors == old(self).errors,
            final(self).state == old(self).state,
    {
        let e = self.conditional_stack.pop().unwrap();
        assert(self.cond() =~= old(self).cond().drop_last());
        e
    }

    /// Reports an unterminated conditional on top of the stack, if any (see
    /// [`check_empty_cond_stack`]); `false` for a top entry that cannot open a
    /// conditional.
    fn check_empty_cond_stack(
        &mut self,
        Ghost(input): Ghost<Seq<SpecPPToken>>,
        Ghost(result): Ghost<Seq<SpecPPToken>>,
        Ghost(prev): Ghost<Option<FileId>>,
        Ghost(skip): Ghost<Option<int>>,
    ) -> (ok: bool)
        ensures
            ok == check_empty_cond_stack(old(self).model(input, result, prev, skip)) is Some,
            ok ==> check_empty_cond_stack(old(self).model(input, result, prev, skip)) == Some(
                final(self).model(input, result, prev, skip),
            ),
            final(self).definitions == old(self).definitions,
            final(self).state == old(self).state,
            final(self).conditional_stack == old(self).conditional_stack,
    {
        let n = self.conditional_stack.len();
        if n == 0 {
            return true;
        }
        let id = self.conditional_stack[n - 1].0.0;
        let span = self.conditional_stack[n - 1].0.2;
        let msg = match &self.conditional_stack[n - 1].0.1 {
            PreprocessorDirective::If(_) => "This #if directive lacks a corresponding #endif",
            PreprocessorDirective::ElseIf(_) => "This #elif directive lacks a corresponding #endif",
            PreprocessorDirective::Else => "This #else directive lacks a corresponding #endif",
            _ => {
                return false;
            },
        };
        self.error(id, span, String::from_str(msg));
        true
    }

    /// Skips the rest of a branch that is not taken: up to the `#elif` or
    /// `#else` of the innermost conditional, which is left at the front of
    /// `input`, or past its `#endif`. At the end of the input the unterminated
    /// conditional is reported and dropped with those inside it. `false` for a
    /// broken conditional stack.
    fn skip_conditional_directive(
        &mut self,
        input: &mut VecDeque<(FileId, Token, Span)>,
        Ghost(srcs): Ghost<SpecSources>,
        Ghost(result): Ghost<Seq<SpecPPToken>>,
        Ghost(prev): Ghost<Option<FileId>>,
    ) -> (ok: bool)
        requires
            old(self).conditional_stack@.len() > 0,
            srcs.len() <= u32::MAX,
        ensures
            ({
                let before = spec_pp_run(
                    srcs,
                    old(self).model(pp_tokens_view(old(input)@), result, prev, Some(old(self).conditional_stack@.len() as int)),
                );
                &&& ok ==> spec_pp_run(srcs, final(self).model(pp_tokens_view(final(input)@), result, prev, None)) == before
                &&& !ok ==> before is None
            }),
            final(self).opened() == old(self).opened(),
            final(input)@.len() <= old(input)@.len(),
    {
        let level = self.conditional_stack.len();
        let ghost target = spec_pp_run(srcs, self.model(pp_tokens_view(input@), result, prev, Some(level as int)));
        let ghost opened0 = self.opened();
        let ghost len0 = input@.len();
        loop
            invariant
                level >= 1,
                level == old(self).conditional_stack@.len(),
                srcs.len() <= u32::MAX,
                target == spec_pp_run(srcs, old(self).model(pp_tokens_view(old(input)@), result, prev, Some(level as int))),
                opened0 == old(self).opened(),
                len0 == old(input)@.len(),
                spec_pp_run(srcs, self.model(pp_tokens_view(input@), result, prev, Some(level as int))) == target,
                self.conditional_stack@.len() >= level,
                self.opened() == opened0,
                input@.len() <= len0,
            decreases input@.len(),
        {
            let ghost cur = self.model(pp_tokens_view(input@), result, prev, Some(level as int));
            proof {
                lemma_step_decreases(srcs, cur);
            }
            if input.len() == 0 {
                let ok = self.check_empty_cond_stack(
                    Ghost(pp_tokens_view(input@)),
                    Ghost(result),
                    Ghost(prev),
                    Ghost(Some(level as int)),
                );
                if !ok {
                    return false;
                }
                let ghost st1 = self.model(pp_tokens_view(input@), result, prev, Some(level as int));
                let ghost cs0 = self.conditional_stack@;
                self.conditional_stack.truncate(level - 1);
                proof {
                    assert(self.conditional_stack@ =~= cs0.subrange(0, level - 1));
                    assert(st1.cond == cs0.map_values(|c: CondEntry| cond_entry_view(c)));
                    assert(self.cond() =~= st1.cond.take(level - 1));
                    assert(self.model(pp_tokens_view(input@), result, prev, None) == SpecPP {
                        cond: st1.cond.take(level - 1),
                        skip: None,
                        ..st1
                    });
                }
                return true;
            }
            let ghost input_before = input@;
            let (id, tk, span) = input.pop_front().unwrap();
            proof {
                assert(pp_tokens_view(input@) =~= pp_tokens_view(input_before).drop_first());
            }
            match tk {
                Token::PreprocessorDirective(d) => match d {
                    PreprocessorDirective::If(c) => {
                        let ghost cond0 = self.cond();
                        self.conditional_stack.push(((id, PreprocessorDirective::If(c), span), Vec::new(), false));
                        proof {
                            let e = cond_entry_view(self.conditional_stack@.last());
                            assert(e.1 =~= Seq::<SpecResolved>::empty());
                            assert(self.cond() =~= cond0.push(e));
                        }
                    },
                    PreprocessorDirective::ElseIf(c) => {
                        if self.conditional_stack.len() == level {
                            input.push_front((id, Token::PreprocessorDirective(PreprocessorDirective::ElseIf(c)), span));
                            proof {
                                assert(input@ =~= input_before);
                            }
                            return true;
                        }
                    },
                    PreprocessorDirective::Else => {
                        if self.conditional_stack.len() == level {
                            input.push_front((id, Token::PreprocessorDirective(PreprocessorDirective::Else), span));
                            proof {
                                assert(input@ =~= input_before);
                            }
                            return true;
                        }
                    },
                    PreprocessorDirective::EndIf => {
                        let ghost cond0 = self.cond();
                        self.conditional_stack.pop();
                        proof {
                            assert(self.cond() =~= cond0.drop_last());
                        }
                        if self.conditional_stack.len() < level {
                            return true;
                        }
                    },
                    _ => {},
                },
                _ => {},
            }
        }
    }

    /// Processes directive `d` at `(id, span)`, already taken from the front
    /// of `input` (see [`directive_step`]); a branch that is not taken is
    /// skipped. `false` for a fault.
    fn process_directive(
        &mut self,
        id: FileId,
        d: PreprocessorDirective,
        span: Span,
        input: &mut VecDeque<(FileId, Token, Span)>,
        sources: &Vec<SourceFile>,
        Ghost(result): Ghost<Seq<SpecPPToken>>,
        Ghost(prev): Ghost<Option<FileId>>,
    ) -> (ok: bool)
        requires
            sources@.len() <= u32::MAX,
        ensures
            ({
                let srcs = sources_view(sources@);
                let st = old(self).model(pp_tokens_view(old(input)@), result, prev, None);
                match directive_step(srcs, st, id, d@, span) {
                    None => !ok,
                    Some(st2) => {
                        &&& ok ==> spec_pp_run(srcs, final(self).model(pp_tokens_view(final(input)@), result, prev, None))
                            == spec_pp_run(srcs, st2)
                        &&& !ok ==> spec_pp_run(srcs, st2) is None
                        &&& final(self).opened() == st2.opened
                        &&& final(input)@.len() <= st2.input.len()
                    },
                }
            }),
    {
        let ghost srcs = sources_view(sources@);
        let ghost st = self.model(pp_tokens_view(input@), result, prev, None);
        let ghost dv = d@;
        match d {
            PreprocessorDirective::Include(q, path) => {
                match find_source(sources, &path) {
                    Some(i) => {
                        let fid = FileId { id: i as u32 };
                        if self.is_opened(fid) {
                            self.error(id, span, String::from_str("Recursive import of ").concat(path.as_str()));
                        } else {
                            match &sources[i].lexemes {
                                Some(lexemes) => {
                                    self.mark_opened(fid);
                                    push_tokens_front(input, fid, lexemes);
                                },
                                None => {
                                    self.error(id, span, String::from_str("Could not find ").concat(path.as_str()));
                                },
                            }
                        }
                    },
                    None => {
                        self.error(id, span, String::from_str("Could not find ").concat(path.as_str()));
                    },
                }
                true
            },
            PreprocessorDirective::If(c) => {
                match interpret_condition(&self.definitions, &c) {
                    None => false,
                    Some(b) => {
                        let e: CondEntry = ((id, PreprocessorDirective::If(c), span), Vec::new(), b);
                        assert(cond_entry_view(e).1 =~= Seq::<SpecResolved>::empty());
                        self.push_cond(e);
                        if !b {
                            self.skip_conditional_directive(input, Ghost(srcs), Ghost(result), Ghost(prev))
                        } else {
                            true
                        }
                    },
                }
            },
            PreprocessorDirective::ElseIf(c) => {
                if self.conditional_stack.len() == 0 {
                    self.error(id, span, String::from_str("An #elif cannot follow an #else"));
                    return true;
                }
                let taken = if self.conditional_stack[self.conditional_stack.len() - 1].2 {
                    false
                } else {
                    match interpret_condition(&self.definitions, &c) {
                        None => {
                            return false;
                        },
                        Some(b) => b,
                    }
                };
                let (tk, mut branches, done) = self.pop_cond();
                let ghost bv = branches@;
                branches.push((id, PreprocessorDirective::ElseIf(c), span));
                assert(branches@.map_values(|r: ResolvedToken| resolved_view(r)) =~= bv.map_values(
                    |r: ResolvedToken| resolved_view(r),
                ).push((id, dv, span)));
                self.push_cond((tk, branches, done || taken));
                if !taken {
                    self.skip_conditional_directive(input, Ghost(srcs), Ghost(result), Ghost(prev))
                } else {
                    true
                }
            },
            PreprocessorDirective::Else => {
                if self.conditional_stack.len() == 0 {
                    self.error(id, span, String::from_str("Dangling #else"));
                    return true;
                }
                let (tk, mut branches, done) = self.pop_cond();
                let n = branches.len();
                if n > 0 && matches!(branches[n - 1].1, PreprocessorDirective::Else) {
                    self.error(id, span, String::from_str("This conditional already has an #else"));
                }
                let ghost bv = branches@;
                branches.push((id, PreprocessorDirective::Else, span));
                assert(branches@.map_values(|r: ResolvedToken| resolved_view(r)) =~= bv.map_values(
                    |r: ResolvedToken| resolved_view(r),
                ).push((id, dv, span)));
                self.push_cond((tk, branches, true));
                if done {
                    self.skip_conditional_directive(input, Ghost(srcs), Ghost(result), Ghost(prev))
                } else {
                    true
                }
            },
            PreprocessorDirective::EndIf => {
                if self.conditional_stack.len() == 0 {
                    self.error(id, span, String::from_str("Dangling #endif"));
                } else {
                    self.pop_cond();
                }
                true
            },
            PreprocessorDirective::Define(k, v) => {
                self.definitions.insert(k, v);
                true
            },
            PreprocessorDirective::Undef(k) => {
                self.definitions.remove(&k);
                true
            },
            PreprocessorDirective::Pragma(_) => false,
            PreprocessorDirective::Other(name, _) => {
                self.error(id, span, String::from_str("Unrecognised directive: ").concat(name.as_str()));
                true
            },
        }
    }

    /// Preprocesses `input`: directives are interpreted, branches that are not
    /// taken are dropped, `#include` reads from `sources` (the file at index
    /// `i` has the id `i`), and consecutive whitespace of one file becomes one
    /// token. Errors are added to [`Self::errors`]. `None` exactly when
    /// [`spec_pp_run`] faults: a `#pragma`, or a condition whose arithmetic
    /// overflows, divides by zero, shifts out of range or expands a macro
    /// without end.
    pub fn preprocess(
        &mut self,
        input: &mut VecDeque<(FileId, Token, Span)>,
        sources: &Vec<SourceFile>,
    ) -> (r: Option<Vec<(FileId, Token, Span)>>)
        requires
            sources@.len() <= u32::MAX,
        ensures
            match spec_pp_run(sources_view(sources@), old(self).model(pp_tokens_view(old(input)@), seq![], None, None)) {
                Some(fin) => {
                    &&& r matches Some(v) && pp_tokens_view(v@) == fin.result
                    &&& final(self).holds(fin)
                    &&& final(input)@.len() == 0
                    &&& output_ok(fin.result)
                    &&& extends(old(self).errs(), final(self).errs())
                },
                None => r is None,
            },
    {
        let ghost srcs = sources_view(sources@);
        proof {
            lemma_pp_run_invariants(srcs, self.model(pp_tokens_view(input@), seq![], None, None));
        }
        let mut result: Vec<(FileId, Token, Span)> = Vec::new();
        let mut previous_file: Option<FileId> = None;
        assert(pp_tokens_view(result@) =~= Seq::<SpecPPToken>::empty());
        let ghost target = spec_pp_run(srcs, self.model(pp_tokens_view(input@), pp_tokens_view(result@), None, None));
        while input.len() > 0
            invariant
                srcs == sources_view(sources@),
                srcs.len() <= u32::MAX,
                target == spec_pp_run(srcs, old(self).model(pp_tokens_view(old(input)@), seq![], None, None)),
                spec_pp_run(srcs, self.model(pp_tokens_view(input@), pp_tokens_view(result@), previous_file, None))
                    == target,
            decreases unopened(srcs.len() as int, self.opened()), input@.len(),
        {
            let ghost cur = self.model(pp_tokens_view(input@), pp_tokens_view(result@), previous_file, None);
            proof {
                lemma_step_decreases(srcs, cur);
            }
            let ghost input_before = input@;
            let (id, tk, span) = input.pop_front().unwrap();
            proof {
                assert(pp_tokens_view(input@) =~= pp_tokens_view(input_before).drop_first());
            }
            if let Some(file) = previous_file {
                if file != id {
                    self.mark_opened(file);
                }
            }
            previous_file = Some(id);
            let ghost base = self.model(pp_tokens_view(input@), pp_tokens_view(result@), previous_file, None);
            let ghost result_before = result@;
            match tk {
                Token::PreprocessorDirective(d) => {
                    if !self.process_directive(id, d, span, input, sources, Ghost(pp_tokens_view(result@)), Ghost(previous_file)) {
                        return None;
                    }
                },
                Token::Whitespace => {
                    let n = result.len();
                    if n > 0 && result[n - 1].0 == id && matches!(result[n - 1].1, Token::Whitespace) {
                        let start = result[n - 1].2.start;
                        result.pop();
                        result.push((id, Token::Whitespace, Span { start, end: span.end }));
                        assert(pp_tokens_view(result@) =~= pp_tokens_view(result_before).drop_last().push(
                            (id, SpecToken::Whitespace, Span { start, end: span.end }),
                        ));
                    } else {
                        result.push((id, Token::Whitespace, span));
                        assert(pp_tokens_view(result@) =~= pp_tokens_view(result_before).push((id, SpecToken::Whitespace, span)));
                    }
                },
                _ => {
                    let ghost tv = tk@;
                    result.push((id, tk, span));
                    assert(pp_tokens_view(result@) =~= pp_tokens_view(result_before).push((id, tv, span)));
                },
            }
        }
        if !self.check_empty_cond_stack(Ghost(pp_tokens_view(input@)), Ghost(pp_tokens_view(result@)), Ghost(previous_file), Ghost(None)) {
            return None;
        }
        Some(result)
    }
}

/// The index of the first file with path `path`.
fn find_source(sources: &Vec<SourceFile>, path: &String) -> (r: Option<usize>)
    ensures
        r matches Some(i) ==> i < sources@.len() && source_index(sources_view(sources@), path@, 0) == Some(i as int),
        r is None ==> source_index(sources_view(sources@), path@, 0) is None,
{
    let ghost srcs = sources_view(sources@);
    let mut i: usize = 0;
    while i < sources.len()
        invariant
            i <= sources.len(),
            srcs == sources_view(sources@),
            source_index(srcs, path@, i as int) == source_index(srcs, path@, 0),
        decreases sources.len() - i,
    {
        if sources[i].path == *path {
            return Some(i);
        }
        i = i + 1;
    }
    None
}

/// Puts the tokens of file `fid` at the front of `input`, each in turn, so
/// that they end up in reverse order.
fn push_tokens_front(input: &mut VecDeque<(FileId, Token, Span)>, fid: FileId, toks: &Vec<(Token, Span)>)
    ensures
        pp_tokens_view(final(input)@) == pushed_front(fid, lexemes_view(toks@)) + pp_tokens_view(old(input)@),
{
    let mut k: usize = 0;
    while k < toks.len()
        invariant
            k <= toks.len(),
            pp_tokens_view(input@) == pushed_front(fid, lexemes_view(toks@).take(k as int)) + pp_tokens_view(old(input)@),
        decreases toks.len() - k,
    {
        let tk = toks[k].0.clone();
        let span = toks[k].1;
        let ghost before = pp_tokens_view(input@);
        input.push_front((fid, tk, span));
        proof {
            let lv = lexemes_view(toks@);
            assert(lv.take(k + 1).drop_last() =~= lv.take(k as int));
            assert(pp_tokens_view(input@) =~= seq![(fid, tk@, span)] + before);
        }
        k = k + 1;
    }
    assert(lexemes_view(toks@).take(toks.len() as int) =~= lexemes_view(toks@));
}

} // verus!
