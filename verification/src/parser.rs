//! Incremental packrat parsing producing concrete syntax trees.
//!
//! A grammar is a list of named parsing-expression rules; a [`Parser`] holds a grammar, a token
//! buffer and a memo table of earlier rule applications. Each memoised outcome remembers how far
//! into the input its computation looked, so that an edit of the buffer only discards the
//! outcomes that looked at the edited tokens.
//!
//! The meaning of a grammar is given by [`eval`], the parsing-expression semantics of a rule at a
//! position (with a fuel argument that bounds the depth of nested rule applications). The
//! exported contracts state that parsing, with or without earlier memoised work and edits, gives
//! exactly that meaning.
use vstd::prelude::*;
use std::rc::Rc;
use crate::text::same_text;
use crate::extensions::FilterResult;

verus! {

/// A grammar symbol (a rule name or a token): it can be compared and duplicated by its view.
pub trait Symbol: View + Sized {
    fn same(&self, other: &Self) -> (b: bool)
        ensures
            b == (self@ == other@),
    ;

    fn duplicate(&self) -> (r: Self)
        ensures
            r@ == self@,
    ;
}

impl Symbol for char {
    fn same(&self, other: &Self) -> (b: bool) {
        *self == *other
    }

    fn duplicate(&self) -> (r: Self) {
        *self
    }
}

impl<'a> Symbol for &'a str {
    fn same(&self, other: &Self) -> (b: bool) {
        same_text(*self, *other)
    }

    fn duplicate(&self) -> (r: Self) {
        *self
    }
}

/// A class of tokens that a terminal rule matches, one token at a time.
pub trait TokenPredicate<T: View>: Sized {
    /// Whether the class holds the token `t`.
    spec fn accepts(&self, t: T::V) -> bool;

    fn test(&self, t: &T) -> (r: bool)
        ensures
            r == self.accepts(t@),
    ;

    /// A predicate of the same class.
    fn duplicate(&self) -> (r: Self)
        ensures
            forall|t: T::V| r.accepts(t) == self.accepts(t),
    ;
}

/// The tokens equal to one of a list.
pub struct OneOf<T>(pub Vec<T>);

impl<T: Symbol> TokenPredicate<T> for OneOf<T> {
    open spec fn accepts(&self, t: T::V) -> bool {
        exists|i: int| 0 <= i < self.0@.len() && #[trigger] self.0@[i]@ == t
    }

    fn test(&self, t: &T) -> (r: bool) {
        let mut i: usize = 0;
        while i < self.0.len()
            invariant
                i <= self.0@.len(),
                forall|j: int| 0 <= j < i ==> #[trigger] self.0@[j]@ != t@,
            decreases self.0@.len() - i,
        {
            if self.0[i].same(t) {
                return true;
            }
            i = i + 1;
        }
        false
    }

    fn duplicate(&self) -> (r: Self) {
        let mut v: Vec<T> = Vec::new();
        let mut i: usize = 0;
        while i < self.0.len()
            invariant
                i <= self.0@.len(),
                v@.len() == i,
                forall|j: int| 0 <= j < i ==> #[trigger] v@[j]@ == self.0@[j]@,
            decreases self.0@.len() - i,
        {
            v.push(self.0[i].duplicate());
            i = i + 1;
        }
        let r = OneOf(v);
        assert forall|t: T::V| r.accepts(t) == self.accepts(t) by {
            if r.accepts(t) {
                let i = choose|i: int| 0 <= i < r.0@.len() && #[trigger] r.0@[i]@ == t;
                assert(self.0@[i]@ == t);
            }
            if self.accepts(t) {
                let i = choose|i: int| 0 <= i < self.0@.len() && #[trigger] self.0@[i]@ == t;
                assert(r.0@[i]@ == t);
            }
        }
        r
    }
}

/// A grammar rule; rules refer to each other by name.
pub enum Rule<N, T, P> {
    /// The given tokens, in order.
    Terminal(Rc<Vec<T>>),
    /// One token of the class `P`, whose pattern is described by the text.
    TerminalPredicate(P, &'static str),
    /// The first of the named rules that matches.
    Choice(Vec<N>),
    /// All of the named rules, one after the other.
    Sequence(Vec<N>),
    /// The named rule as many times as it matches (possibly none).
    Repetition(N),
    /// Succeeds without consuming input exactly where the named rule fails.
    Not(N),
    /// Matches the empty input.
    Nothing,
}

/// A successful rule application: its syntax tree and the number of tokens it consumed.
#[derive(PartialEq, Debug)]
pub struct ExistingMatch<N, T> {
    pub cst: Cst<N, T>,
    pub match_length: usize,
}

/// The concrete syntax tree type exactly mirrors the structure of the grammar.
#[derive(PartialEq, Debug)]
pub enum Cst<N, T> {
    Terminal(Rc<Vec<T>>),
    Choice(N, Rc<ExistingMatch<N, T>>),
    Sequence(Vec<Rc<ExistingMatch<N, T>>>),
    Repetition(Vec<Rc<ExistingMatch<N, T>>>),
    Not(N),
    Nothing,
}

/// Why a rule failed to match.
#[derive(PartialEq, Debug)]
pub enum ParserError<N, T> {
    /// The named part of a sequence failed.
    Expected(N, Rc<ParserError<N, T>>),
    /// The rule under a `Not` matched.
    Unexpected(N),
    /// Every option of a choice failed, for the reasons given.
    ExpectedOneOf(Vec<(N, Rc<ParserError<N, T>>)>),
    /// The start rule matched but did not consume all the input.
    ExpectedEof,
    /// No token of the described class was found.
    ExpectedPatternMatch(&'static str),
    /// A terminal's token was not found.
    ExpectedToken(T),
}

// ---------------------------------------------------------------------------------------------
// The mathematical model
// ---------------------------------------------------------------------------------------------

/// A rule over views of names and tokens.
#[verifier::ext_equal]
#[verifier::reject_recursive_types(T)]
pub enum PegRule<N, T> {
    Terminal(Seq<T>),
    TerminalPredicate(spec_fn(T) -> bool, Seq<char>),
    Choice(Seq<N>),
    Sequence(Seq<N>),
    Repetition(N),
    Not(N),
    Nothing,
}

/// A match over views: its tree and its length.
pub struct PegMatch<N, T> {
    pub cst: PegCst<N, T>,
    pub len: nat,
}

pub enum PegCst<N, T> {
    Terminal(Seq<T>),
    Choice(N, Box<PegMatch<N, T>>),
    Sequence(Seq<PegMatch<N, T>>),
    Repetition(Seq<PegMatch<N, T>>),
    Not(N),
    Nothing,
}

pub enum PegError<N, T> {
    Expected(N, Box<PegError<N, T>>),
    Unexpected(N),
    ExpectedOneOf(Seq<(N, PegError<N, T>)>),
    ExpectedEof,
    ExpectedPatternMatch(Seq<char>),
    ExpectedToken(T),
}

/// The index of the rule that a name denotes: the last definition of the name, or -1.
pub open spec fn rule_index_upto<N, T>(g: Seq<(N, PegRule<N, T>)>, n: N, k: int) -> int
    decreases k,
{
    if k <= 0 {
        -1
    } else if g[k - 1].0 == n {
        k - 1
    } else {
        rule_index_upto(g, n, k - 1)
    }
}

pub open spec fn rule_index<N, T>(g: Seq<(N, PegRule<N, T>)>, n: N) -> int {
    rule_index_upto(g, n, g.len() as int)
}

pub open spec fn defined<N, T>(g: Seq<(N, PegRule<N, T>)>, n: N) -> bool {
    exists|i: int| 0 <= i < g.len() && g[i].0 == n
}

/// The names that a rule refers to.
pub open spec fn references<N, T>(r: PegRule<N, T>) -> Seq<N> {
    match r {
        PegRule::Choice(ns) => ns,
        PegRule::Sequence(ns) => ns,
        PegRule::Repetition(n) => seq![n],
        PegRule::Not(n) => seq![n],
        _ => Seq::empty(),
    }
}

/// Every name that a rule refers to has a definition.
pub open spec fn closed<N, T>(g: Seq<(N, PegRule<N, T>)>) -> bool {
    forall|i: int, j: int|
        0 <= i < g.len() && 0 <= j < references(g[i].1).len() ==> defined(
            g,
            #[trigger] references(g[i].1)[j],
        )
}

pub open spec fn imax(a: int, b: int) -> int {
    if a >= b {
        a
    } else {
        b
    }
}

/// The number of leading tokens of `ts` found at `pos + j, pos + j + 1, ...`, counting from `j`.
pub open spec fn matched_prefix<T>(ts: Seq<T>, pos: int, input: Seq<T>, j: int) -> int
    decreases ts.len() - j,
{
    if j >= ts.len() || j < 0 {
        ts.len() as int
    } else if pos + j < input.len() && input[pos + j] == ts[j] {
        matched_prefix(ts, pos, input, j + 1)
    } else {
        j
    }
}

/// Outcome of a terminal at `pos`, with the end of the examined input.
pub open spec fn eval_terminal<N, T>(ts: Seq<T>, pos: int, input: Seq<T>) -> (
    Result<PegMatch<N, T>, PegError<N, T>>,
    int,
) {
    let k = matched_prefix(ts, pos, input, 0);
    if k < ts.len() {
        (Err(PegError::ExpectedToken(ts[k])), pos + k + 1)
    } else {
        (Ok(PegMatch { cst: PegCst::Terminal(ts), len: ts.len() }), pos + ts.len())
    }
}

/// The outcome of applying the rule named `n` at `pos`, and the (exclusive) end of the input
/// that the application examined, never less than `pos`. `None` when the application needs more
/// than `fuel` nested rule applications, or repeats a rule that matches the empty input.
pub open spec fn eval<N, T>(
    g: Seq<(N, PegRule<N, T>)>,
    n: N,
    pos: int,
    input: Seq<T>,
    fuel: nat,
) -> Option<(Result<PegMatch<N, T>, PegError<N, T>>, int)>
    decreases fuel, 0nat,
{
    let i = rule_index(g, n);
    if fuel == 0 || i < 0 || i >= g.len() {
        None
    } else {
        match g[i].1 {
            PegRule::Nothing => Some((Ok(PegMatch { cst: PegCst::Nothing, len: 0 }), pos)),
            PegRule::Terminal(ts) => Some(eval_terminal(ts, pos, input)),
            PegRule::TerminalPredicate(f, pattern) => Some(
                if 0 <= pos < input.len() && f(input[pos]) {
                    (Ok(PegMatch { cst: PegCst::Terminal(seq![input[pos]]), len: 1 }), pos + 1)
                } else {
                    (Err(PegError::ExpectedPatternMatch(pattern)), pos + 1)
                },
            ),
            PegRule::Choice(opts) => eval_choice(
                g,
                opts,
                0,
                pos,
                input,
                (fuel - 1) as nat,
                Seq::empty(),
                pos,
            ),
            PegRule::Sequence(parts) => eval_seq(
                g,
                parts,
                0,
                pos,
                input,
                (fuel - 1) as nat,
                Seq::empty(),
                pos,
                pos,
            ),
            PegRule::Repetition(c) => eval_rep(
                g,
                c,
                pos,
                input,
                (fuel - 1) as nat,
                Seq::empty(),
                pos,
                pos,
            ),
            PegRule::Not(c) => match eval(g, c, pos, input, (fuel - 1) as nat) {
                None => None,
                Some((Ok(_), e)) => Some((Err(PegError::Unexpected(c)), imax(pos, e))),
                Some((Err(_), e)) => Some(
                    (Ok(PegMatch { cst: PegCst::Not(c), len: 0 }), imax(pos, e)),
                ),
            },
        }
    }
}

/// Tries the options from the `i`-th on, each at `pos`; `errs` holds the failures so far and `m`
/// the end of the input examined so far.
pub open spec fn eval_choice<N, T>(
    g: Seq<(N, PegRule<N, T>)>,
    opts: Seq<N>,
    i: int,
    pos: int,
    input: Seq<T>,
    fuel: nat,
    errs: Seq<(N, PegError<N, T>)>,
    m: int,
) -> Option<(Result<PegMatch<N, T>, PegError<N, T>>, int)>
    decreases fuel, (opts.len() + 1 - i) as nat,
    when 0 <= i <= opts.len()
{
    if i >= opts.len() {
        Some((Err(PegError::ExpectedOneOf(errs)), m))
    } else {
        match eval(g, opts[i], pos, input, fuel) {
            None => None,
            Some((Ok(mt), e)) => Some(
                (
                    Ok(PegMatch { cst: PegCst::Choice(opts[i], Box::new(mt)), len: mt.len }),
                    imax(m, e),
                ),
            ),
            Some((Err(er), e)) => eval_choice(
                g,
                opts,
                i + 1,
                pos,
                input,
                fuel,
                errs.push((opts[i], er)),
                imax(m, e),
            ),
        }
    }
}

/// Matches the parts from the `i`-th on, starting at `pos`; the sequence began at `start`,
/// `acc` holds the matches so far and `m` the end of the input examined so far.
pub open spec fn eval_seq<N, T>(
    g: Seq<(N, PegRule<N, T>)>,
    parts: Seq<N>,
    i: int,
    pos: int,
    input: Seq<T>,
    fuel: nat,
    acc: Seq<PegMatch<N, T>>,
    start: int,
    m: int,
) -> Option<(Result<PegMatch<N, T>, PegError<N, T>>, int)>
    decreases fuel, (parts.len() + 1 - i) as nat,
    when 0 <= i <= parts.len()
{
    if i >= parts.len() {
        Some((Ok(PegMatch { cst: PegCst::Sequence(acc), len: (pos - start) as nat }), m))
    } else {
        match eval(g, parts[i], pos, input, fuel) {
            None => None,
            Some((Ok(mt), e)) => eval_seq(
                g,
                parts,
                i + 1,
                pos + mt.len,
                input,
                fuel,
                acc.push(mt),
                start,
                imax(m, e),
            ),
            Some((Err(er), e)) => Some(
                (Err(PegError::Expected(parts[i], Box::new(er))), imax(m, e)),
            ),
        }
    }
}

/// The measure of a repetition at `pos`: the input left, plus one.
pub open spec fn rep_measure(pos: int, len: int) -> nat {
    if pos <= len {
        (len - pos + 2) as nat
    } else {
        1
    }
}

/// Matches `c` as often as it matches from `pos` on; the repetition began at `start`, `acc`
/// holds the matches so far and `m` the end of the input examined so far.
pub open spec fn eval_rep<N, T>(
    g: Seq<(N, PegRule<N, T>)>,
    c: N,
    pos: int,
    input: Seq<T>,
    fuel: nat,
    acc: Seq<PegMatch<N, T>>,
    start: int,
    m: int,
) -> Option<(Result<PegMatch<N, T>, PegError<N, T>>, int)>
    decreases fuel, rep_measure(pos, input.len() as int),
{
    match eval(g, c, pos, input, fuel) {
        None => None,
        Some((Ok(mt), e)) => if mt.len == 0 || pos + mt.len > input.len() {
            None
        } else {
            eval_rep(g, c, pos + mt.len, input, fuel, acc.push(mt), start, imax(m, e))
        },
        Some((Err(_), e)) => Some(
            (
                Ok(PegMatch { cst: PegCst::Repetition(acc), len: (pos - start) as nat }),
                imax(m, e),
            ),
        ),
    }
}

// ---------------------------------------------------------------------------------------------
// Views of the executable types
// ---------------------------------------------------------------------------------------------

pub open spec fn symbols_view<A: View>(v: Seq<A>) -> Seq<A::V> {
    v.map_values(|a: A| a@)
}

impl<N: View, T: View, P: TokenPredicate<T>> View for Rule<N, T, P> {
    type V = PegRule<N::V, T::V>;

    open spec fn view(&self) -> PegRule<N::V, T::V> {
        match self {
            Rule::Terminal(ts) => PegRule::Terminal(symbols_view((**ts)@)),
            Rule::TerminalPredicate(p, pattern) => PegRule::TerminalPredicate(
                |t: T::V| p.accepts(t),
                (*pattern)@,
            ),
            Rule::Choice(ns) => PegRule::Choice(symbols_view(ns@)),
            Rule::Sequence(ns) => PegRule::Sequence(symbols_view(ns@)),
            Rule::Repetition(n) => PegRule::Repetition(n@),
            Rule::Not(n) => PegRule::Not(n@),
            Rule::Nothing => PegRule::Nothing,
        }
    }
}

/// The grammar that a list of named rules denotes.
pub open spec fn grammar_view<N: View, T: View, P: TokenPredicate<T>>(
    rules: Seq<(N, Rule<N, T, P>)>,
) -> Seq<(N::V, PegRule<N::V, T::V>)> {
    rules.map_values(|p: (N, Rule<N, T, P>)| (p.0@, p.1@))
}

pub open spec fn match_view<N: View, T: View>(m: ExistingMatch<N, T>) -> PegMatch<N::V, T::V>
    decreases m, 0nat,
{
    PegMatch { cst: cst_view(m.cst), len: m.match_length as nat }
}

pub open spec fn cst_view<N: View, T: View>(c: Cst<N, T>) -> PegCst<N::V, T::V>
    decreases c, 0nat,
{
    match c {
        Cst::Terminal(ts) => PegCst::Terminal(symbols_view((*ts)@)),
        Cst::Choice(n, m) => PegCst::Choice(n@, Box::new(match_view(*m))),
        Cst::Sequence(v) => {
            proof {
                vstd::std_specs::vec::axiom_vec_decreases_to_view(v);
            }
            PegCst::Sequence(matches_view(v@, v@.len()))
        },
        Cst::Repetition(v) => {
            proof {
                vstd::std_specs::vec::axiom_vec_decreases_to_view(v);
            }
            PegCst::Repetition(matches_view(v@, v@.len()))
        },
        Cst::Not(n) => PegCst::Not(n@),
        Cst::Nothing => PegCst::Nothing,
    }
}

/// The views of the first `k` matches of `v`.
pub open spec fn matches_view<N: View, T: View>(
    v: Seq<Rc<ExistingMatch<N, T>>>,
    k: nat,
) -> Seq<PegMatch<N::V, T::V>>
    decreases v, k,
{
    if k == 0 || k > v.len() {
        Seq::empty()
    } else {
        matches_view(v, (k - 1) as nat).push(match_view(*v[k - 1]))
    }
}

pub open spec fn error_view<N: View, T: View>(e: ParserError<N, T>) -> PegError<N::V, T::V>
    decreases e, 0nat,
{
    match e {
        ParserError::Expected(n, inner) => PegError::Expected(n@, Box::new(error_view(*inner))),
        ParserError::Unexpected(n) => PegError::Unexpected(n@),
        ParserError::ExpectedOneOf(v) => {
            proof {
                vstd::std_specs::vec::axiom_vec_decreases_to_view(v);
            }
            PegError::ExpectedOneOf(errors_view(v@, v@.len()))
        },
        ParserError::ExpectedEof => PegError::ExpectedEof,
        ParserError::ExpectedPatternMatch(pattern) => PegError::ExpectedPatternMatch(pattern@),
        ParserError::ExpectedToken(t) => PegError::ExpectedToken(t@),
    }
}

/// The views of the first `k` named failures of `v`.
pub open spec fn errors_view<N: View, T: View>(
    v: Seq<(N, Rc<ParserError<N, T>>)>,
    k: nat,
) -> Seq<(N::V, PegError<N::V, T::V>)>
    decreases v, k,
{
    if k == 0 || k > v.len() {
        Seq::empty()
    } else {
        errors_view(v, (k - 1) as nat).push((v[k - 1].0@, error_view(*v[k - 1].1)))
    }
}

/// The view of a rule application's outcome.
pub open spec fn outcome_view<N: View, T: View>(
    r: Result<Rc<ExistingMatch<N, T>>, Rc<ParserError<N, T>>>,
) -> Result<PegMatch<N::V, T::V>, PegError<N::V, T::V>> {
    match r {
        Ok(m) => Ok(match_view(*m)),
        Err(e) => Err(error_view(*e)),
    }
}

// ---------------------------------------------------------------------------------------------
// Properties of the semantics
// ---------------------------------------------------------------------------------------------

/// A token inside a matched terminal prefix is the terminal's token.
proof fn lemma_matched_prefix_at<T>(ts: Seq<T>, pos: int, input: Seq<T>, j: int, x: int)
    requires
        0 <= j <= x < matched_prefix(ts, pos, input, j),
        0 <= pos,
    ensures
        pos + x < input.len(),
        input[pos + x] == ts[x],
    decreases x - j,
{
    if x > j {
        lemma_matched_prefix_at(ts, pos, input, j + 1, x);
    }
}

/// What a matched terminal prefix tells about the input.
proof fn lemma_matched_prefix<T>(ts: Seq<T>, pos: int, input: Seq<T>, j: int)
    requires
        0 <= j <= ts.len(),
        0 <= pos,
    ensures
        j <= matched_prefix(ts, pos, input, j) <= ts.len(),
        matched_prefix(ts, pos, input, j) < ts.len() ==> {
            let k = matched_prefix(ts, pos, input, j);
            !(pos + k < input.len() && input[pos + k] == ts[k])
        },
    decreases ts.len() - j,
{
    if j < ts.len() && pos + j < input.len() && input[pos + j] == ts[j] {
        lemma_matched_prefix(ts, pos, input, j + 1);
    }
}

/// Bounds of an application's outcome: the examined input starts at `pos`, covers what was
/// consumed, and ends at most one past the input.
pub proof fn lemma_eval_bounds<N, T>(
    g: Seq<(N, PegRule<N, T>)>,
    n: N,
    pos: int,
    input: Seq<T>,
    fuel: nat,
)
    requires
        0 <= pos <= input.len(),
        eval(g, n, pos, input, fuel) is Some,
    ensures
        ({
            let (o, e) = eval(g, n, pos, input, fuel).unwrap();
            &&& pos <= e <= input.len() + 1
            &&& o is Ok ==> pos + o->Ok_0.len <= e && pos + o->Ok_0.len <= input.len()
        }),
    decreases fuel, 0nat,
{
    let i = rule_index(g, n);
    match g[i].1 {
        PegRule::TerminalPredicate(f, _) => {},
        PegRule::Terminal(ts) => {
            lemma_matched_prefix(ts, pos, input, 0);
            let k = matched_prefix(ts, pos, input, 0);
            if k > 0 {
                lemma_matched_prefix_at(ts, pos, input, 0, k - 1);
            }
        },
        PegRule::Choice(opts) => {
            lemma_choice_bounds(g, opts, 0, pos, input, (fuel - 1) as nat, Seq::empty(), pos);
        },
        PegRule::Sequence(parts) => {
            lemma_seq_bounds(g, parts, 0, pos, input, (fuel - 1) as nat, Seq::empty(), pos, pos);
        },
        PegRule::Repetition(c) => {
            lemma_rep_bounds(g, c, pos, input, (fuel - 1) as nat, Seq::empty(), pos, pos);
        },
        PegRule::Not(c) => {
            lemma_eval_bounds(g, c, pos, input, (fuel - 1) as nat);
        },
        PegRule::Nothing => {},
    }
}

proof fn lemma_choice_bounds<N, T>(
    g: Seq<(N, PegRule<N, T>)>,
    opts: Seq<N>,
    i: int,
    pos: int,
    input: Seq<T>,
    fuel: nat,
    errs: Seq<(N, PegError<N, T>)>,
    m: int,
)
    requires
        0 <= i <= opts.len(),
        0 <= pos <= input.len(),
        pos <= m <= input.len() + 1,
        eval_choice(g, opts, i, pos, input, fuel, errs, m) is Some,
    ensures
        ({
            let (o, e) = eval_choice(g, opts, i, pos, input, fuel, errs, m).unwrap();
            &&& m <= e <= input.len() + 1
            &&& o is Ok ==> pos + o->Ok_0.len <= e && pos + o->Ok_0.len <= input.len()
        }),
    decreases fuel, (opts.len() + 1 - i) as nat,
{
    if i < opts.len() {
        lemma_eval_bounds(g, opts[i], pos, input, fuel);
        match eval(g, opts[i], pos, input, fuel) {
            Some((Err(er), e)) => {
                lemma_choice_bounds(
                    g,
                    opts,
                    i + 1,
                    pos,
                    input,
                    fuel,
                    errs.push((opts[i], er)),
                    imax(m, e),
                );
            },
            _ => {},
        }
    }
}

proof fn lemma_seq_bounds<N, T>(
    g: Seq<(N, PegRule<N, T>)>,
    parts: Seq<N>,
    i: int,
    pos: int,
    input: Seq<T>,
    fuel: nat,
    acc: Seq<PegMatch<N, T>>,
    start: int,
    m: int,
)
    requires
        0 <= i <= parts.len(),
        0 <= start <= pos <= input.len(),
        pos <= m <= input.len() + 1,
        eval_seq(g, parts, i, pos, input, fuel, acc, start, m) is Some,
    ensures
        ({
            let (o, e) = eval_seq(g, parts, i, pos, input, fuel, acc, start, m).unwrap();
            &&& m <= e <= input.len() + 1
            &&& o is Ok ==> start + o->Ok_0.len <= e && start + o->Ok_0.len <= input.len()
        }),
    decreases fuel, (parts.len() + 1 - i) as nat,
{
    if i < parts.len() {
        lemma_eval_bounds(g, parts[i], pos, input, fuel);
        match eval(g, parts[i], pos, input, fuel) {
            Some((Ok(mt), e)) => {
                lemma_seq_bounds(
                    g,
                    parts,
                    i + 1,
                    pos + mt.len,
                    input,
                    fuel,
                    acc.push(mt),
                    start,
                    imax(m, e),
                );
            },
            _ => {},
        }
    }
}

proof fn lemma_rep_bounds<N, T>(
    g: Seq<(N, PegRule<N, T>)>,
    c: N,
    pos: int,
    input: Seq<T>,
    fuel: nat,
    acc: Seq<PegMatch<N, T>>,
    start: int,
    m: int,
)
    requires
        0 <= start <= pos <= input.len(),
        pos <= m <= input.len() + 1,
        eval_rep(g, c, pos, input, fuel, acc, start, m) is Some,
    ensures
        ({
            let (o, e) = eval_rep(g, c, pos, input, fuel, acc, start, m).unwrap();
            &&& m <= e <= input.len() + 1
            &&& o is Ok ==> start + o->Ok_0.len <= e && start + o->Ok_0.len <= input.len()
        }),
    decreases fuel, rep_measure(pos, input.len() as int),
{
    lemma_eval_bounds(g, c, pos, input, fuel);
    match eval(g, c, pos, input, fuel) {
        Some((Ok(mt), e)) => {
            if !(mt.len == 0 || pos + mt.len > input.len()) {
                lemma_rep_bounds(g, c, pos + mt.len, input, fuel, acc.push(mt), start, imax(m, e));
            }
        },
        _ => {},
    }
}

/// More fuel does not change an application's outcome once it has one.
pub proof fn lemma_eval_fuel<N, T>(
    g: Seq<(N, PegRule<N, T>)>,
    n: N,
    pos: int,
    input: Seq<T>,
    f1: nat,
    f2: nat,
)
    requires
        f1 <= f2,
        eval(g, n, pos, input, f1) is Some,
    ensures
        eval(g, n, pos, input, f2) == eval(g, n, pos, input, f1),
    decreases f1, 0nat,
{
    let i = rule_index(g, n);
    match g[i].1 {
        PegRule::Choice(opts) => {
            lemma_choice_fuel(
                g,
                opts,
                0,
                pos,
                input,
                (f1 - 1) as nat,
                (f2 - 1) as nat,
                Seq::empty(),
                pos,
            );
        },
        PegRule::Sequence(parts) => {
            lemma_seq_fuel(
                g,
                parts,
                0,
                pos,
                input,
                (f1 - 1) as nat,
                (f2 - 1) as nat,
                Seq::empty(),
                pos,
                pos,
            );
        },
        PegRule::Repetition(c) => {
            lemma_rep_fuel(
                g,
                c,
                pos,
                input,
                (f1 - 1) as nat,
                (f2 - 1) as nat,
                Seq::empty(),
                pos,
                pos,
            );
        },
        PegRule::Not(c) => {
            lemma_eval_fuel(g, c, pos, input, (f1 - 1) as nat, (f2 - 1) as nat);
        },
        _ => {},
    }
}

proof fn lemma_choice_fuel<N, T>(
    g: Seq<(N, PegRule<N, T>)>,
    opts: Seq<N>,
    i: int,
    pos: int,
    input: Seq<T>,
    f1: nat,
    f2: nat,
    errs: Seq<(N, PegError<N, T>)>,
    m: int,
)
    requires
        0 <= i <= opts.len(),
        f1 <= f2,
        eval_choice(g, opts, i, pos, input, f1, errs, m) is Some,
    ensures
        eval_choice(g, opts, i, pos, input, f2, errs, m) == eval_choice(
            g,
            opts,
            i,
            pos,
            input,
            f1,
            errs,
            m,
        ),
    decreases f1, (opts.len() + 1 - i) as nat,
{
    if i < opts.len() {
        lemma_eval_fuel(g, opts[i], pos, input, f1, f2);
        match eval(g, opts[i], pos, input, f1) {
            Some((Err(er), e)) => {
                lemma_choice_fuel(
                    g,
                    opts,
                    i + 1,
                    pos,
                    input,
                    f1,
                    f2,
                    errs.push((opts[i], er)),
                    imax(m, e),
                );
            },
            _ => {},
        }
    }
}

proof fn lemma_seq_fuel<N, T>(
    g: Seq<(N, PegRule<N, T>)>,
    parts: Seq<N>,
    i: int,
    pos: int,
    input: Seq<T>,
    f1: nat,
    f2: nat,
    acc: Seq<PegMatch<N, T>>,
    start: int,
    m: int,
)
    requires
        0 <= i <= parts.len(),
        f1 <= f2,
        eval_seq(g, parts, i, pos, input, f1, acc, start, m) is Some,
    ensures
        eval_seq(g, parts, i, pos, input, f2, acc, start, m) == eval_seq(
            g,
            parts,
            i,
            pos,
            input,
            f1,
            acc,
            start,
            m,
        ),
    decreases f1, (parts.len() + 1 - i) as nat,
{
    if i < parts.len() {
        lemma_eval_fuel(g, parts[i], pos, input, f1, f2);
        match eval(g, parts[i], pos, input, f1) {
            Some((Ok(mt), e)) => {
                lemma_seq_fuel(
                    g,
                    parts,
                    i + 1,
                    pos + mt.len,
                    input,
                    f1,
                    f2,
                    acc.push(mt),
                    start,
                    imax(m, e),
                );
            },
            _ => {},
        }
    }
}

proof fn lemma_rep_fuel<N, T>(
    g: Seq<(N, PegRule<N, T>)>,
    c: N,
    pos: int,
    input: Seq<T>,
    f1: nat,
    f2: nat,
    acc: Seq<PegMatch<N, T>>,
    start: int,
    m: int,
)
    requires
        f1 <= f2,
        eval_rep(g, c, pos, input, f1, acc, start, m) is Some,
    ensures
        eval_rep(g, c, pos, input, f2, acc, start, m) == eval_rep(
            g,
            c,
            pos,
            input,
            f1,
            acc,
            start,
            m,
        ),
    decreases f1, rep_measure(pos, input.len() as int),
{
    lemma_eval_fuel(g, c, pos, input, f1, f2);
    match eval(g, c, pos, input, f1) {
        Some((Ok(mt), e)) => {
            if !(mt.len == 0 || pos + mt.len > input.len()) {
                lemma_rep_fuel(g, c, pos + mt.len, input, f1, f2, acc.push(mt), start, imax(m, e));
            }
        },
        _ => {},
    }
}

/// Whether the application of the rule named `n` at `pos` has an outcome.
pub open spec fn terminates<N, T>(
    g: Seq<(N, PegRule<N, T>)>,
    n: N,
    pos: int,
    input: Seq<T>,
) -> bool {
    exists|f: nat| #[trigger] eval(g, n, pos, input, f) is Some
}

/// The outcome of an application that has one, and the end of the input it examined.
pub open spec fn outcome<N, T>(
    g: Seq<(N, PegRule<N, T>)>,
    n: N,
    pos: int,
    input: Seq<T>,
) -> (Result<PegMatch<N, T>, PegError<N, T>>, int) {
    eval(g, n, pos, input, choose|f: nat| #[trigger] eval(g, n, pos, input, f) is Some).unwrap()
}

/// Any fuel that gives an outcome gives the same one.
pub proof fn lemma_outcome<N, T>(
    g: Seq<(N, PegRule<N, T>)>,
    n: N,
    pos: int,
    input: Seq<T>,
    f: nat,
)
    requires
        eval(g, n, pos, input, f) is Some,
    ensures
        terminates(g, n, pos, input),
        eval(g, n, pos, input, f) == Some(outcome(g, n, pos, input)),
{
    let f0 = choose|f: nat| #[trigger] eval(g, n, pos, input, f) is Some;
    if f0 <= f {
        lemma_eval_fuel(g, n, pos, input, f0, f);
    } else {
        lemma_eval_fuel(g, n, pos, input, f, f0);
    }
}

/// Input `b`, shifted by `d`, looks like input `a` at position `j`: the same token, or the end of
/// the input in both.
pub open spec fn agree_at<T>(a: Seq<T>, b: Seq<T>, d: int, j: int) -> bool {
    &&& (j < a.len()) == (j + d < b.len())
    &&& j < a.len() ==> a[j] == b[j + d]
}

/// `b`, shifted by `d`, looks like `a` at every position from `lo` up to (not including) `hi`.
pub open spec fn agree<T>(a: Seq<T>, b: Seq<T>, d: int, lo: int, hi: int) -> bool {
    forall|j: int| lo <= j < hi ==> #[trigger] agree_at(a, b, d, j)
}

proof fn lemma_matched_prefix_shift<T>(ts: Seq<T>, p: int, a: Seq<T>, b: Seq<T>, d: int, j: int)
    requires
        0 <= j <= ts.len(),
        0 <= p,
        0 <= p + d,
        forall|x: int|
            j <= x <= matched_prefix(ts, p, a, j) && x < ts.len() ==> #[trigger] agree_at(
                a,
                b,
                d,
                p + x,
            ),
    ensures
        matched_prefix(ts, p + d, b, j) == matched_prefix(ts, p, a, j),
    decreases ts.len() - j,
{
    lemma_matched_prefix(ts, p, a, j);
    if j < ts.len() {
        assert(agree_at(a, b, d, p + j));
        if p + j < a.len() && a[p + j] == ts[j] {
            lemma_matched_prefix_shift(ts, p, a, b, d, j + 1);
        }
    }
}

/// The outcome of an application depends only on the input it examined: on another input that
/// looks the same over that stretch (shifted by `d`), the outcome is the same.
pub proof fn lemma_eval_shift<N, T>(
    g: Seq<(N, PegRule<N, T>)>,
    n: N,
    p: int,
    a: Seq<T>,
    b: Seq<T>,
    d: int,
    fuel: nat,
)
    requires
        eval(g, n, p, a, fuel) is Some,
        0 <= p <= a.len(),
        0 <= p + d <= b.len(),
        agree(a, b, d, p, eval(g, n, p, a, fuel).unwrap().1),
    ensures
        eval(g, n, p + d, b, fuel) == Some(
            (eval(g, n, p, a, fuel).unwrap().0, eval(g, n, p, a, fuel).unwrap().1 + d),
        ),
    decreases fuel, 0nat,
{
    let i = rule_index(g, n);
    match g[i].1 {
        PegRule::TerminalPredicate(f, _) => {
            assert(agree_at(a, b, d, p));
        },
        PegRule::Terminal(ts) => {
            lemma_matched_prefix(ts, p, a, 0);
            let k = matched_prefix(ts, p, a, 0);
            assert forall|x: int| 0 <= x <= k && x < ts.len() implies #[trigger] agree_at(
                a,
                b,
                d,
                p + x,
            ) by {
                assert(p <= p + x < eval(g, n, p, a, fuel).unwrap().1);
            }
            lemma_matched_prefix_shift(ts, p, a, b, d, 0);
        },
        PegRule::Choice(opts) => {
            lemma_choice_shift(g, opts, 0, p, a, b, d, (fuel - 1) as nat, Seq::empty(), p);
        },
        PegRule::Sequence(parts) => {
            lemma_seq_shift(g, parts, 0, p, a, b, d, (fuel - 1) as nat, Seq::empty(), p, p);
        },
        PegRule::Repetition(c) => {
            lemma_rep_shift(g, c, p, a, b, d, (fuel - 1) as nat, Seq::empty(), p, p);
        },
        PegRule::Not(c) => {
            lemma_eval_bounds(g, c, p, a, (fuel - 1) as nat);
            lemma_eval_shift(g, c, p, a, b, d, (fuel - 1) as nat);
        },
        PegRule::Nothing => {},
    }
}

proof fn lemma_choice_shift<N, T>(
    g: Seq<(N, PegRule<N, T>)>,
    opts: Seq<N>,
    i: int,
    p: int,
    a: Seq<T>,
    b: Seq<T>,
    d: int,
    fuel: nat,
    errs: Seq<(N, PegError<N, T>)>,
    m: int,
)
    requires
        0 <= i <= opts.len(),
        0 <= p <= a.len(),
        0 <= p + d <= b.len(),
        p <= m <= a.len() + 1,
        eval_choice(g, opts, i, p, a, fuel, errs, m) is Some,
        agree(a, b, d, p, eval_choice(g, opts, i, p, a, fuel, errs, m).unwrap().1),
    ensures
        eval_choice(g, opts, i, p + d, b, fuel, errs, m + d) == Some(
            (
                eval_choice(g, opts, i, p, a, fuel, errs, m).unwrap().0,
                eval_choice(g, opts, i, p, a, fuel, errs, m).unwrap().1 + d,
            ),
        ),
    decreases fuel, (opts.len() + 1 - i) as nat,
{
    if i < opts.len() {
        lemma_choice_bounds(g, opts, i, p, a, fuel, errs, m);
        lemma_eval_bounds(g, opts[i], p, a, fuel);
        let (o, e) = eval(g, opts[i], p, a, fuel).unwrap();
        match o {
            Ok(mt) => {
                lemma_eval_shift(g, opts[i], p, a, b, d, fuel);
            },
            Err(er) => {
                lemma_choice_bounds(
                    g,
                    opts,
                    i + 1,
                    p,
                    a,
                    fuel,
                    errs.push((opts[i], er)),
                    imax(m, e),
                );
                lemma_eval_shift(g, opts[i], p, a, b, d, fuel);
                lemma_choice_shift(
                    g,
                    opts,
                    i + 1,
                    p,
                    a,
                    b,
                    d,
                    fuel,
                    errs.push((opts[i], er)),
                    imax(m, e),
                );
                assert(imax(m, e) + d == imax(m + d, e + d));
            },
        }
    }
}

proof fn lemma_seq_shift<N, T>(
    g: Seq<(N, PegRule<N, T>)>,
    parts: Seq<N>,
    i: int,
    pos: int,
    a: Seq<T>,
    b: Seq<T>,
    d: int,
    fuel: nat,
    acc: Seq<PegMatch<N, T>>,
    start: int,
    m: int,
)
    requires
        0 <= i <= parts.len(),
        0 <= start <= pos <= a.len(),
        0 <= start + d,
        pos + d <= b.len(),
        pos <= m <= a.len() + 1,
        eval_seq(g, parts, i, pos, a, fuel, acc, start, m) is Some,
        agree(a, b, d, pos, eval_seq(g, parts, i, pos, a, fuel, acc, start, m).unwrap().1),
    ensures
        eval_seq(g, parts, i, pos + d, b, fuel, acc, start + d, m + d) == Some(
            (
                eval_seq(g, parts, i, pos, a, fuel, acc, start, m).unwrap().0,
                eval_seq(g, parts, i, pos, a, fuel, acc, start, m).unwrap().1 + d,
            ),
        ),
    decreases fuel, (parts.len() + 1 - i) as nat,
{
    if i < parts.len() {
        lemma_seq_bounds(g, parts, i, pos, a, fuel, acc, start, m);
        lemma_eval_bounds(g, parts[i], pos, a, fuel);
        let (o, e) = eval(g, parts[i], pos, a, fuel).unwrap();
        match o {
            Ok(mt) => {
                lemma_seq_bounds(
                    g,
                    parts,
                    i + 1,
                    pos + mt.len,
                    a,
                    fuel,
                    acc.push(mt),
                    start,
                    imax(m, e),
                );
                lemma_eval_shift(g, parts[i], pos, a, b, d, fuel);
                if mt.len > 0 {
                    assert(agree_at(a, b, d, pos + mt.len - 1));
                }
                lemma_seq_shift(
                    g,
                    parts,
                    i + 1,
                    pos + mt.len,
                    a,
                    b,
                    d,
                    fuel,
                    acc.push(mt),
                    start,
                    imax(m, e),
                );
                assert(imax(m, e) + d == imax(m + d, e + d));
                assert(pos + mt.len + d == pos + d + mt.len);
            },
            Err(er) => {
                lemma_eval_shift(g, parts[i], pos, a, b, d, fuel);
                assert(imax(m, e) + d == imax(m + d, e + d));
            },
        }
    }
}

proof fn lemma_rep_shift<N, T>(
    g: Seq<(N, PegRule<N, T>)>,
    c: N,
    pos: int,
    a: Seq<T>,
    b: Seq<T>,
    d: int,
    fuel: nat,
    acc: Seq<PegMatch<N, T>>,
    start: int,
    m: int,
)
    requires
        0 <= start <= pos <= a.len(),
        0 <= start + d,
        pos + d <= b.len(),
        pos <= m <= a.len() + 1,
        eval_rep(g, c, pos, a, fuel, acc, start, m) is Some,
        agree(a, b, d, pos, eval_rep(g, c, pos, a, fuel, acc, start, m).unwrap().1),
    ensures
        eval_rep(g, c, pos + d, b, fuel, acc, start + d, m + d) == Some(
            (
                eval_rep(g, c, pos, a, fuel, acc, start, m).unwrap().0,
                eval_rep(g, c, pos, a, fuel, acc, start, m).unwrap().1 + d,
            ),
        ),
    decreases fuel, rep_measure(pos, a.len() as int),
{
    lemma_rep_bounds(g, c, pos, a, fuel, acc, start, m);
    lemma_eval_bounds(g, c, pos, a, fuel);
    let (o, e) = eval(g, c, pos, a, fuel).unwrap();
    match o {
        Ok(mt) => {
            lemma_rep_bounds(g, c, pos + mt.len, a, fuel, acc.push(mt), start, imax(m, e));
            lemma_eval_shift(g, c, pos, a, b, d, fuel);
            assert(agree_at(a, b, d, pos + mt.len - 1));
            lemma_rep_shift(g, c, pos + mt.len, a, b, d, fuel, acc.push(mt), start, imax(m, e));
            assert(imax(m, e) + d == imax(m + d, e + d));
            assert(pos + mt.len + d == pos + d + mt.len);
        },
        Err(er) => {
            lemma_eval_shift(g, c, pos, a, b, d, fuel);
            assert(imax(m, e) + d == imax(m + d, e + d));
        },
    }
}

/// The total length of the first `k` trees of `ms`.
pub open spec fn lens_sum<N, T>(ms: Seq<PegMatch<N, T>>, k: int) -> nat
    decreases k,
{
    if k <= 0 || k > ms.len() {
        0
    } else {
        lens_sum(ms, k - 1) + ms[k - 1].len
    }
}

/// The tree `m` mirrors the rule named `n`: a terminal's tokens, the chosen option of a choice, one
/// child per part of a sequence, repeated children of a repetition; a tree's length is that of
/// its children together.
pub open spec fn mirrors<N, T>(g: Seq<(N, PegRule<N, T>)>, n: N, m: PegMatch<N, T>) -> bool
    decreases m, 0nat,
{
    let i = rule_index(g, n);
    &&& 0 <= i < g.len()
    &&& match g[i].1 {
        PegRule::Terminal(ts) => m.cst == PegCst::<N, T>::Terminal(ts) && m.len == ts.len(),
        PegRule::TerminalPredicate(f, _) => match m.cst {
            PegCst::Terminal(ts) => ts.len() == 1 && f(ts[0]) && m.len == 1,
            _ => false,
        },
        PegRule::Choice(opts) => match m.cst {
            PegCst::Choice(c, b) => opts.contains(c) && m.len == b.len && mirrors(g, c, *b),
            _ => false,
        },
        PegRule::Sequence(parts) => match m.cst {
            PegCst::Sequence(ms) => ms.len() == parts.len() && all_mirror(g, parts, ms, ms.len())
                && m.len == lens_sum(ms, ms.len() as int),
            _ => false,
        },
        PegRule::Repetition(c) => match m.cst {
            PegCst::Repetition(ms) => all_mirror(g, Seq::new(ms.len(), |k: int| c), ms, ms.len())
                && m.len == lens_sum(ms, ms.len() as int),
            _ => false,
        },
        PegRule::Not(c) => m.cst == PegCst::<N, T>::Not(c) && m.len == 0,
        PegRule::Nothing => m.cst == PegCst::<N, T>::Nothing && m.len == 0,
    }
}

/// The first `k` of the trees `ms` mirror the rules named `ns`, one for one.
pub open spec fn all_mirror<N, T>(
    g: Seq<(N, PegRule<N, T>)>,
    ns: Seq<N>,
    ms: Seq<PegMatch<N, T>>,
    k: nat,
) -> bool
    decreases ms, k,
{
    if k == 0 || k > ms.len() {
        true
    } else {
        all_mirror(g, ns, ms, (k - 1) as nat) && mirrors(g, ns[k - 1], ms[k - 1])
    }
}

/// Every tree that an application produces mirrors the grammar.
pub proof fn lemma_eval_mirrors<N, T>(
    g: Seq<(N, PegRule<N, T>)>,
    n: N,
    pos: int,
    input: Seq<T>,
    fuel: nat,
)
    requires
        eval(g, n, pos, input, fuel) matches Some((Ok(_), _)),
    ensures
        mirrors(g, n, eval(g, n, pos, input, fuel)->Some_0.0->Ok_0),
    decreases fuel, 0nat,
{
    let i = rule_index(g, n);
    let m = eval(g, n, pos, input, fuel)->Some_0.0->Ok_0;
    match g[i].1 {
        PegRule::TerminalPredicate(f, _) => {},
        PegRule::Terminal(ts) => {},
        PegRule::Choice(opts) => {
            lemma_choice_mirrors(g, opts, 0, pos, input, (fuel - 1) as nat, Seq::empty(), pos);
        },
        PegRule::Sequence(parts) => {
            lemma_seq_mirrors(
                g,
                parts,
                0,
                pos,
                input,
                (fuel - 1) as nat,
                Seq::empty(),
                pos,
                pos,
            );
        },
        PegRule::Repetition(c) => {
            lemma_rep_mirrors(g, c, pos, input, (fuel - 1) as nat, Seq::empty(), pos, pos);
        },
        PegRule::Not(c) => {},
        PegRule::Nothing => {},
    }
}

/// Every syntax tree that parsing produces mirrors the grammar, from the start rule down.
pub proof fn lemma_parse_mirrors<N, T>(g: Seq<(N, PegRule<N, T>)>, start: N, input: Seq<T>)
    requires
        terminates(g, start, 0, input),
        parse_outcome(g, start, input) is Ok,
    ensures
        mirrors(g, start, parse_outcome(g, start, input)->Ok_0),
{
    let f = choose|f: nat| #[trigger] eval(g, start, 0, input, f) is Some;
    lemma_outcome(g, start, 0, input, f);
    lemma_eval_mirrors(g, start, 0, input, f);
}

proof fn lemma_choice_mirrors<N, T>(
    g: Seq<(N, PegRule<N, T>)>,
    opts: Seq<N>,
    i: int,
    pos: int,
    input: Seq<T>,
    fuel: nat,
    errs: Seq<(N, PegError<N, T>)>,
    m: int,
)
    requires
        0 <= i <= opts.len(),
        eval_choice(g, opts, i, pos, input, fuel, errs, m) matches Some((Ok(_), _)),
    ensures
        ({
            let r = eval_choice(g, opts, i, pos, input, fuel, errs, m)->Some_0.0->Ok_0;
            r.cst matches PegCst::Choice(c, b) && opts.contains(c) && r.len == b.len && mirrors(
                g,
                c,
                *b,
            )
        }),
    decreases fuel, (opts.len() + 1 - i) as nat,
{
    if i < opts.len() {
        match eval(g, opts[i], pos, input, fuel) {
            Some((Ok(mt), e)) => {
                lemma_eval_mirrors(g, opts[i], pos, input, fuel);
            },
            Some((Err(er), e)) => {
                lemma_choice_mirrors(
                    g,
                    opts,
                    i + 1,
                    pos,
                    input,
                    fuel,
                    errs.push((opts[i], er)),
                    imax(m, e),
                );
            },
            None => {},
        }
    }
}

proof fn lemma_lens_sum_push<N, T>(ms: Seq<PegMatch<N, T>>, x: PegMatch<N, T>, k: int)
    requires
        0 <= k <= ms.len(),
    ensures
        lens_sum(ms.push(x), k) == lens_sum(ms, k),
        k == ms.len() ==> lens_sum(ms.push(x), k + 1) == lens_sum(ms, k) + x.len,
    decreases k,
{
    if k > 0 {
        lemma_lens_sum_push(ms, x, k - 1);
        assert(ms.push(x)[k - 1] == ms[k - 1]);
    }
    if k == ms.len() {
        assert(ms.push(x)[k] == x);
        assert(lens_sum(ms.push(x), k + 1) == lens_sum(ms.push(x), k) + ms.push(x)[k].len);
    }
}

proof fn lemma_all_mirror_push<N, T>(
    g: Seq<(N, PegRule<N, T>)>,
    ns: Seq<N>,
    ms: Seq<PegMatch<N, T>>,
    x: PegMatch<N, T>,
    k: nat,
)
    requires
        k <= ms.len(),
        all_mirror(g, ns, ms, k),
    ensures
        all_mirror(g, ns, ms.push(x), k),
    decreases k,
{
    if k > 0 {
        lemma_all_mirror_push(g, ns, ms, x, (k - 1) as nat);
        assert(ms.push(x)[k - 1] == ms[k - 1]);
    }
}

/// `all_mirror` depends only on the names that it pairs with trees.
proof fn lemma_all_mirror_names<N, T>(
    g: Seq<(N, PegRule<N, T>)>,
    ns1: Seq<N>,
    ns2: Seq<N>,
    ms: Seq<PegMatch<N, T>>,
    k: nat,
)
    requires
        k <= ms.len(),
        all_mirror(g, ns1, ms, k),
        forall|j: int| 0 <= j < k ==> ns1[j] == ns2[j],
    ensures
        all_mirror(g, ns2, ms, k),
    decreases k,
{
    if k > 0 {
        lemma_all_mirror_names(g, ns1, ns2, ms, (k - 1) as nat);
    }
}

proof fn lemma_seq_mirrors<N, T>(
    g: Seq<(N, PegRule<N, T>)>,
    parts: Seq<N>,
    i: int,
    pos: int,
    input: Seq<T>,
    fuel: nat,
    acc: Seq<PegMatch<N, T>>,
    start: int,
    m: int,
)
    requires
        0 <= i <= parts.len(),
        acc.len() == i,
        all_mirror(g, parts, acc, acc.len()),
        pos - start == lens_sum(acc, acc.len() as int),
        eval_seq(g, parts, i, pos, input, fuel, acc, start, m) matches Some((Ok(_), _)),
    ensures
        ({
            let r = eval_seq(g, parts, i, pos, input, fuel, acc, start, m)->Some_0.0->Ok_0;
            r.cst matches PegCst::Sequence(ms) && ms.len() == parts.len() && all_mirror(
                g,
                parts,
                ms,
                ms.len(),
            ) && r.len == lens_sum(ms, ms.len() as int)
        }),
    decreases fuel, (parts.len() + 1 - i) as nat,
{
    if i < parts.len() {
        match eval(g, parts[i], pos, input, fuel) {
            Some((Ok(mt), e)) => {
                lemma_eval_mirrors(g, parts[i], pos, input, fuel);
                lemma_all_mirror_push(g, parts, acc, mt, acc.len());
                lemma_lens_sum_push(acc, mt, acc.len() as int);
                assert(acc.push(mt)[i] == mt);
                lemma_seq_mirrors(
                    g,
                    parts,
                    i + 1,
                    pos + mt.len,
                    input,
                    fuel,
                    acc.push(mt),
                    start,
                    imax(m, e),
                );
            },
            _ => {},
        }
    }
}

proof fn lemma_rep_mirrors<N, T>(
    g: Seq<(N, PegRule<N, T>)>,
    c: N,
    pos: int,
    input: Seq<T>,
    fuel: nat,
    acc: Seq<PegMatch<N, T>>,
    start: int,
    m: int,
)
    requires
        all_mirror(g, Seq::new(acc.len(), |k: int| c), acc, acc.len()),
        pos - start == lens_sum(acc, acc.len() as int),
        eval_rep(g, c, pos, input, fuel, acc, start, m) matches Some((Ok(_), _)),
    ensures
        ({
            let r = eval_rep(g, c, pos, input, fuel, acc, start, m)->Some_0.0->Ok_0;
            r.cst matches PegCst::Repetition(ms) && all_mirror(
                g,
                Seq::new(ms.len(), |k: int| c),
                ms,
                ms.len(),
            ) && r.len == lens_sum(ms, ms.len() as int)
        }),
    decreases fuel, rep_measure(pos, input.len() as int),
{
    match eval(g, c, pos, input, fuel) {
        Some((Ok(mt), e)) => {
            if !(mt.len == 0 || pos + mt.len > input.len()) {
                lemma_eval_mirrors(g, c, pos, input, fuel);
                let cs1 = Seq::new(acc.len(), |k: int| c);
                let cs2 = Seq::new(acc.len() + 1, |k: int| c);
                lemma_all_mirror_names(g, cs1, cs2, acc, acc.len());
                lemma_all_mirror_push(g, cs2, acc, mt, acc.len());
                lemma_lens_sum_push(acc, mt, acc.len() as int);
                assert(acc.push(mt)[acc.len() as int] == mt);
                lemma_rep_mirrors(g, c, pos + mt.len, input, fuel, acc.push(mt), start, imax(m, e));
            }
        },
        _ => {},
    }
}

// ---------------------------------------------------------------------------------------------
// The memo table
// ---------------------------------------------------------------------------------------------

/// A memoised rule application: its outcome and how many tokens its computation examined.
struct MemoTableEntry<N, T> {
    existing_match: Result<Rc<ExistingMatch<N, T>>, Rc<ParserError<N, T>>>,
    examined_length: usize,
}

/// The memoised applications at one position, one slot per rule.
struct Column<N, T> {
    memo: Vec<Option<MemoTableEntry<N, T>>>,
    max_examined_length: usize,
}

/// A memo entry for rule `i` at position `p` holds the rule's outcome there, and its examined
/// length covers the input that the outcome depends on.
spec fn entry_ok<N: View, T: View>(
    g: Seq<(N::V, PegRule<N::V, T::V>)>,
    input: Seq<T::V>,
    p: int,
    i: int,
    e: MemoTableEntry<N, T>,
) -> bool {
    &&& rule_index(g, g[i].0) == i
    &&& terminates(g, g[i].0, p, input)
    &&& outcome_view(e.existing_match) == outcome(g, g[i].0, p, input).0
    &&& outcome(g, g[i].0, p, input).1 <= p + e.examined_length
    &&& p + e.examined_length <= input.len() + 1
}

spec fn column_ok<N: View, T: View>(
    g: Seq<(N::V, PegRule<N::V, T::V>)>,
    input: Seq<T::V>,
    p: int,
    col: Column<N, T>,
) -> bool {
    &&& col.memo@.len() == g.len()
    &&& p + col.max_examined_length <= input.len() + 1
    &&& forall|i: int|
        0 <= i < g.len() && (#[trigger] col.memo@[i]) is Some ==> entry_ok(
            g,
            input,
            p,
            i,
            col.memo@[i].unwrap(),
        ) && col.memo@[i].unwrap().examined_length <= col.max_examined_length
}

spec fn memo_ok<N: View, T: View>(
    g: Seq<(N::V, PegRule<N::V, T::V>)>,
    input: Seq<T::V>,
    table: Seq<Column<N, T>>,
) -> bool {
    &&& table.len() == input.len() + 1
    &&& forall|p: int| 0 <= p < table.len() ==> column_ok(g, input, p, #[trigger] table[p])
}

proof fn lemma_rule_index<N, T>(g: Seq<(N, PegRule<N, T>)>, n: N, k: int)
    requires
        0 <= k <= g.len(),
    ensures
        -1 <= rule_index_upto(g, n, k) < k,
        rule_index_upto(g, n, k) >= 0 ==> g[rule_index_upto(g, n, k)].0 == n,
        (exists|i: int| 0 <= i < k && g[i].0 == n) ==> rule_index_upto(g, n, k) >= 0,
    decreases k,
{
    if k > 0 {
        lemma_rule_index(g, n, k - 1);
        if g[k - 1].0 != n {
            assert forall|i: int| 0 <= i < k && g[i].0 == n implies 0 <= i < k - 1 && g[i].0
                == n by {}
        }
    }
}

proof fn lemma_matches_view_push<N: View, T: View>(
    v: Seq<Rc<ExistingMatch<N, T>>>,
    x: Rc<ExistingMatch<N, T>>,
    k: nat,
)
    requires
        k <= v.len(),
    ensures
        matches_view(v.push(x), k) == matches_view(v, k),
        k == v.len() ==> matches_view(v.push(x), v.len() + 1) == matches_view(v, v.len()).push(
            match_view(*x),
        ),
    decreases k,
{
    if k > 0 {
        lemma_matches_view_push(v, x, (k - 1) as nat);
    }
    if k == v.len() {
        let w = v.push(x);
        assert(w[v.len() as int] == x);
        assert(matches_view(w, (v.len() + 1) as nat) == matches_view(w, v.len()).push(
            match_view(*w[v.len() as int]),
        ));
    }
}

/// The `i`-th of the views of the first `k` matches is the view of the `i`-th match.
pub proof fn lemma_matches_view_index<N: View, T: View>(
    v: Seq<Rc<ExistingMatch<N, T>>>,
    k: nat,
    i: int,
)
    requires
        0 <= i < k <= v.len(),
    ensures
        matches_view(v, k).len() == k,
        matches_view(v, k)[i] == match_view(*v[i]),
    decreases k,
{
    lemma_matches_view_len(v, k);
    if i < k - 1 {
        lemma_matches_view_index(v, (k - 1) as nat, i);
    }
}

pub proof fn lemma_matches_view_len<N: View, T: View>(v: Seq<Rc<ExistingMatch<N, T>>>, k: nat)
    requires
        k <= v.len(),
    ensures
        matches_view(v, k).len() == k,
    decreases k,
{
    if k > 0 {
        lemma_matches_view_len(v, (k - 1) as nat);
    }
}

/// Each of the first `k` trees mirrors the rule paired with it.
pub proof fn lemma_all_mirror_index<N, T>(
    g: Seq<(N, PegRule<N, T>)>,
    ns: Seq<N>,
    ms: Seq<PegMatch<N, T>>,
    k: nat,
    i: int,
)
    requires
        0 <= i < k <= ms.len(),
        all_mirror(g, ns, ms, k),
    ensures
        mirrors(g, ns[i], ms[i]),
    decreases k,
{
    if i < k - 1 {
        lemma_all_mirror_index(g, ns, ms, (k - 1) as nat, i);
    }
}

/// Sums of lengths grow with the number of trees summed.
pub proof fn lemma_lens_sum_mono<N, T>(ms: Seq<PegMatch<N, T>>, i: int, j: int)
    requires
        0 <= i <= j <= ms.len(),
    ensures
        lens_sum(ms, i) <= lens_sum(ms, j),
    decreases j - i,
{
    if i < j {
        lemma_lens_sum_mono(ms, i, j - 1);
    }
}

proof fn lemma_errors_view_push<N: View, T: View>(
    v: Seq<(N, Rc<ParserError<N, T>>)>,
    x: (N, Rc<ParserError<N, T>>),
    k: nat,
)
    requires
        k <= v.len(),
    ensures
        errors_view(v.push(x), k) == errors_view(v, k),
        k == v.len() ==> errors_view(v.push(x), v.len() + 1) == errors_view(v, v.len()).push(
            (x.0@, error_view(*x.1)),
        ),
    decreases k,
{
    if k > 0 {
        lemma_errors_view_push(v, x, (k - 1) as nat);
    }
    if k == v.len() {
        let w = v.push(x);
        assert(w[v.len() as int] == x);
        assert(errors_view(w, (v.len() + 1) as nat) == errors_view(w, v.len()).push(
            (w[v.len() as int].0@, error_view(*w[v.len() as int].1)),
        ));
    }
}

/// A second handle on a shared value (`Rc::clone`: a new pointer to the same allocation).
#[verifier::external_body]
pub(crate) fn share<A>(r: &Rc<A>) -> (s: Rc<A>)
    ensures
        s == *r,
{
    Rc::clone(r)
}

fn umax(a: usize, b: usize) -> (r: usize)
    ensures
        r == imax(a as int, b as int),
{
    if a >= b {
        a
    } else {
        b
    }
}

/// The index of the rule that `name` denotes: its last definition.
fn find_rule<N: Symbol, T: Symbol, P: TokenPredicate<T>>(rules: &Vec<(N, Rule<N, T, P>)>, name: &N) -> (r: Option<usize>)
    ensures
        match r {
            Some(i) => i == rule_index(grammar_view(rules@), name@) && i < rules.len(),
            None => rule_index(grammar_view(rules@), name@) == -1,
        },
{
    let ghost g = grammar_view(rules@);
    let mut k = rules.len();
    while k > 0
        invariant
            k <= rules.len(),
            g == grammar_view(rules@),
            rule_index(g, name@) == rule_index_upto(g, name@, k as int),
        decreases k,
    {
        if rules[k - 1].0.same(name) {
            return Some(k - 1);
        }
        k = k - 1;
    }
    None
}

// ---------------------------------------------------------------------------------------------
// Matching
// ---------------------------------------------------------------------------------------------

/// Applies the rule named `name` at `*pos`, reusing a memoised outcome where there is one and
/// memoising the outcome otherwise. On success `*pos` moves past the match; `*end` grows to cover
/// the input that the outcome depends on.
fn memoized_eval_rule<N: Symbol, T: Symbol, P: TokenPredicate<T>>(
    rules: &Vec<(N, Rule<N, T, P>)>,
    input: &Vec<T>,
    memo: &mut Vec<Column<N, T>>,
    pos: &mut usize,
    end: &mut usize,
    name: &N,
    Ghost(fuel): Ghost<nat>,
) -> (r: Result<Rc<ExistingMatch<N, T>>, Rc<ParserError<N, T>>>)
    requires
        memo_ok(grammar_view(rules@), symbols_view(input@), old(memo)@),
        *old(pos) <= input.len(),
        *old(end) <= input.len() + 1,
        input.len() + 2 <= usize::MAX,
        eval(grammar_view(rules@), name@, *old(pos) as int, symbols_view(input@), fuel) is Some,
    ensures
        memo_ok(grammar_view(rules@), symbols_view(input@), final(memo)@),
        ({
            let (o, e) = eval(
                grammar_view(rules@),
                name@,
                *old(pos) as int,
                symbols_view(input@),
                fuel,
            ).unwrap();
            &&& outcome_view(r) == o
            &&& r is Ok ==> *final(pos) == *old(pos) + r->Ok_0.match_length
            &&& *final(pos) <= input.len()
            &&& *old(end) <= *final(end) <= input.len() + 1
            &&& e <= imax(*final(end) as int, *old(pos) as int)
        }),
    decreases fuel, 1nat,
{
    let ghost g = grammar_view(rules@);
    let ghost iv = symbols_view(input@);
    let p = *pos;
    let idx = match find_rule(rules, name) {
        Some(i) => i,
        None => {
            proof {
                assert(false);
            }
            0
        },
    };
    proof {
        lemma_rule_index(g, name@, g.len() as int);
        lemma_outcome(g, name@, p as int, iv, fuel);
        lemma_eval_bounds(g, name@, p as int, iv, fuel);
        assert(column_ok(g, iv, p as int, memo@[p as int]));
    }
    if let Some(entry) = &memo[p].memo[idx] {
        proof {
            assert(entry_ok(g, iv, p as int, idx as int, *entry));
        }
        *end = umax(*end, p + entry.examined_length);
        match &entry.existing_match {
            Ok(m) => {
                *pos = p + m.match_length;
                Ok(share(m))
            },
            Err(e) => Err(share(e)),
        }
    } else {
        let orig_end = *end;
        *end = 0;
        let cst = eval_rule(rules, input, memo, pos, end, name, idx, Ghost(fuel));
        let examined_length = if *end >= p {
            *end - p
        } else {
            0
        };
        let result: Result<Rc<ExistingMatch<N, T>>, Rc<ParserError<N, T>>> = match cst {
            Ok(c) => Ok(Rc::new(ExistingMatch { cst: c, match_length: *pos - p })),
            Err(e) => Err(Rc::new(e)),
        };
        let stored = match &result {
            Ok(m) => Ok(share(m)),
            Err(e) => Err(share(e)),
        };
        let ghost before = memo@;
        let mut col = Column { memo: Vec::new(), max_examined_length: 0 };
        std::mem::swap(&mut col, &mut memo[p]);
        proof {
            assert(column_ok(g, iv, p as int, before[p as int]));
            assert(col == before[p as int]);
        }
        col.memo[idx] = Some(MemoTableEntry { existing_match: stored, examined_length });
        col.max_examined_length = umax(col.max_examined_length, examined_length);
        proof {
            let c0 = before[p as int];
            assert forall|i: int|
                0 <= i < g.len() && (#[trigger] col.memo@[i]) is Some implies entry_ok(
                g,
                iv,
                p as int,
                i,
                col.memo@[i].unwrap(),
            ) && col.memo@[i].unwrap().examined_length <= col.max_examined_length by {
                if i != idx {
                    assert(c0.memo@[i] == col.memo@[i]);
                }
            }
            assert(column_ok(g, iv, p as int, col));
        }
        std::mem::swap(&mut col, &mut memo[p]);
        proof {
            assert forall|q: int| 0 <= q < memo@.len() implies column_ok(
                g,
                iv,
                q,
                #[trigger] memo@[q],
            ) by {
                if q != p {
                    assert(memo@[q] == before[q]);
                }
            }
        }
        *end = umax(*end, orig_end);
        result
    }
}

/// Applies the rule at index `idx`, named `name`, at `*pos` (without consulting the memo table
/// for this application itself).
fn eval_rule<N: Symbol, T: Symbol, P: TokenPredicate<T>>(
    rules: &Vec<(N, Rule<N, T, P>)>,
    input: &Vec<T>,
    memo: &mut Vec<Column<N, T>>,
    pos: &mut usize,
    end: &mut usize,
    name: &N,
    idx: usize,
    Ghost(fuel): Ghost<nat>,
) -> (r: Result<Cst<N, T>, ParserError<N, T>>)
    requires
        memo_ok(grammar_view(rules@), symbols_view(input@), old(memo)@),
        *old(pos) <= input.len(),
        *old(end) <= input.len() + 1,
        input.len() + 2 <= usize::MAX,
        idx < rules.len(),
        idx == rule_index(grammar_view(rules@), name@),
        eval(grammar_view(rules@), name@, *old(pos) as int, symbols_view(input@), fuel) is Some,
    ensures
        memo_ok(grammar_view(rules@), symbols_view(input@), final(memo)@),
        ({
            let (o, e) = eval(
                grammar_view(rules@),
                name@,
                *old(pos) as int,
                symbols_view(input@),
                fuel,
            ).unwrap();
            &&& match r {
                Ok(c) => o is Ok && cst_view(c) == o->Ok_0.cst && *final(pos) == *old(pos)
                    + o->Ok_0.len,
                Err(er) => o == Err::<PegMatch<N::V, T::V>, PegError<N::V, T::V>>(
                    error_view(er),
                ),
            }
            &&& *final(pos) <= input.len()
            &&& *old(end) <= *final(end) <= input.len() + 1
            &&& e <= imax(*final(end) as int, *old(pos) as int)
        }),
    decreases fuel, 0nat,
{
    let ghost g = grammar_view(rules@);
    let ghost iv = symbols_view(input@);
    let p0 = *pos;
    proof {
        lemma_eval_bounds(g, name@, p0 as int, iv, fuel);
    }
    match &rules[idx].1 {
        Rule::Nothing => {
            *end = umax(*end, p0);
            Ok(Cst::Nothing)
        },
        Rule::TerminalPredicate(p, pattern) => {
            *end = umax(*end, p0 + 1);
            if p0 < input.len() && p.test(&input[p0]) {
                *pos = p0 + 1;
                let t = input[p0].duplicate();
                let ts = vec![t];
                assert(symbols_view(ts@) =~= seq![iv[p0 as int]]);
                Ok(Cst::Terminal(Rc::new(ts)))
            } else {
                Err(ParserError::ExpectedPatternMatch(*pattern))
            }
        },
        Rule::Terminal(ts) => {
            let ghost tv = symbols_view(ts@);
            let mut j: usize = 0;
            while j < ts.len()
                invariant
                    j <= ts.len(),
                    tv == symbols_view(ts@),
                    *pos == p0 + j,
                    p0 <= input.len(),
                    input.len() + 2 <= usize::MAX,
                    matched_prefix(tv, p0 as int, iv, 0) == matched_prefix(
                        tv,
                        p0 as int,
                        iv,
                        j as int,
                    ),
                    iv == symbols_view(input@),
                    *old(end) <= *end <= input.len() + 1,
                    j > 0 ==> p0 + j <= *end,
                    *pos <= input.len(),
                    g == grammar_view(rules@),
                    memo_ok(g, iv, memo@),
                    p0 == *old(pos),
                    eval(g, name@, p0 as int, iv, fuel) == Some(
                        eval_terminal::<N::V, T::V>(tv, p0 as int, iv),
                    ),
                decreases ts.len() - j,
            {
                *end = umax(*end, *pos + 1);
                if *pos < input.len() && input[*pos].same(&ts[j]) {
                    *pos = *pos + 1;
                    j = j + 1;
                } else {
                    proof {
                        lemma_matched_prefix(tv, p0 as int, iv, j as int);
                        assert(tv[j as int] == ts@[j as int]@);
                        if (p0 + j) < input.len() {
                            assert(iv[p0 + j] == input@[p0 + j]@);
                        }
                        assert(matched_prefix(tv, p0 as int, iv, j as int) == j);
                    }
                    return Err(ParserError::ExpectedToken(ts[j].duplicate()));
                }
            }
            proof {
                lemma_matched_prefix(tv, p0 as int, iv, j as int);
            }
            Ok(Cst::Terminal(share(ts)))
        },
        Rule::Choice(options) => {
            let ghost opts = symbols_view(options@);
            let ghost whole = eval_choice(
                g,
                opts,
                0,
                p0 as int,
                iv,
                (fuel - 1) as nat,
                Seq::empty(),
                p0 as int,
            );
            let mut errors: Vec<(N, Rc<ParserError<N, T>>)> = Vec::new();
            let ghost mut m: int = p0 as int;
            let mut k: usize = 0;
            while k < options.len()
                invariant
                    k <= options.len(),
                    opts == symbols_view(options@),
                    g == grammar_view(rules@),
                    iv == symbols_view(input@),
                    memo_ok(g, iv, memo@),
                    p0 <= input.len(),
                    input.len() + 2 <= usize::MAX,
                    *pos <= input.len(),
                    *old(end) <= *end <= input.len() + 1,
                    p0 <= m <= imax(*end as int, p0 as int),
                    m <= input.len() + 1,
                    whole is Some,
                    fuel > 0,
                    p0 == *old(pos),
                    eval(g, name@, p0 as int, iv, fuel) == whole,
                    eval_choice(
                        g,
                        opts,
                        k as int,
                        p0 as int,
                        iv,
                        (fuel - 1) as nat,
                        errors_view(errors@, errors@.len()),
                        m,
                    ) == whole,
                decreases options.len() - k,
            {
                *pos = p0;
                let ghost child = eval(g, opts[k as int], p0 as int, iv, (fuel - 1) as nat);
                let ghost errs = errors_view(errors@, errors@.len());
                assert(child is Some);
                let r = memoized_eval_rule(
                    rules,
                    input,
                    memo,
                    pos,
                    end,
                    &options[k],
                    Ghost((fuel - 1) as nat),
                );
                match r {
                    Ok(mt) => {
                        let nm = options[k].duplicate();
                        proof {
                            assert(nm@ == opts[k as int]);
                            let mt_spec = child.unwrap().0->Ok_0;
                            assert(match_view(*mt) == mt_spec);
                            assert(whole == Some(
                                (
                                    Ok::<PegMatch<N::V, T::V>, PegError<N::V, T::V>>(
                                        PegMatch {
                                            cst: PegCst::Choice(opts[k as int], Box::new(mt_spec)),
                                            len: mt_spec.len,
                                        },
                                    ),
                                    imax(m, child.unwrap().1),
                                ),
                            ));
                        }
                        return Ok(Cst::Choice(nm, mt));
                    },
                    Err(e) => {
                        let item = (options[k].duplicate(), e);
                        proof {
                            lemma_errors_view_push(errors@, item, errors@.len());
                            m = imax(m, child.unwrap().1);
                        }
                        errors.push(item);
                        k = k + 1;
                    },
                }
            }
            Err(ParserError::ExpectedOneOf(errors))
        },
        Rule::Sequence(parts) => {
            let ghost ps = symbols_view(parts@);
            let ghost whole = eval_seq(
                g,
                ps,
                0,
                p0 as int,
                iv,
                (fuel - 1) as nat,
                Seq::empty(),
                p0 as int,
                p0 as int,
            );
            let mut matches: Vec<Rc<ExistingMatch<N, T>>> = Vec::new();
            let ghost mut m: int = p0 as int;
            let mut k: usize = 0;
            while k < parts.len()
                invariant
                    k <= parts.len(),
                    ps == symbols_view(parts@),
                    g == grammar_view(rules@),
                    iv == symbols_view(input@),
                    memo_ok(g, iv, memo@),
                    p0 <= *pos <= input.len(),
                    input.len() + 2 <= usize::MAX,
                    *old(end) <= *end <= input.len() + 1,
                    *pos <= imax(*end as int, p0 as int),
                    *pos <= m <= imax(*end as int, p0 as int),
                    m <= input.len() + 1,
                    whole is Some,
                    fuel > 0,
                    p0 == *old(pos),
                    eval(g, name@, p0 as int, iv, fuel) == whole,
                    eval_seq(
                        g,
                        ps,
                        k as int,
                        *pos as int,
                        iv,
                        (fuel - 1) as nat,
                        matches_view(matches@, matches@.len()),
                        p0 as int,
                        m,
                    ) == whole,
                decreases parts.len() - k,
            {
                let ghost pc = *pos;
                let ghost child = eval(g, ps[k as int], pc as int, iv, (fuel - 1) as nat);
                assert(child is Some);
                proof {
                    lemma_eval_bounds(g, ps[k as int], pc as int, iv, (fuel - 1) as nat);
                }
                let r = memoized_eval_rule(
                    rules,
                    input,
                    memo,
                    pos,
                    end,
                    &parts[k],
                    Ghost((fuel - 1) as nat),
                );
                match r {
                    Ok(mt) => {
                        proof {
                            lemma_matches_view_push(matches@, mt, matches@.len());
                            m = imax(m, child.unwrap().1);
                        }
                        matches.push(mt);
                        k = k + 1;
                    },
                    Err(e) => {
                        let nm = parts[k].duplicate();
                        proof {
                            assert(nm@ == ps[k as int]);
                            let er_spec = child.unwrap().0->Err_0;
                            assert(error_view(*e) == er_spec);
                            assert(whole == Some(
                                (
                                    Err::<PegMatch<N::V, T::V>, PegError<N::V, T::V>>(
                                        PegError::Expected(ps[k as int], Box::new(er_spec)),
                                    ),
                                    imax(m, child.unwrap().1),
                                ),
                            ));
                        }
                        return Err(ParserError::Expected(nm, e));
                    },
                }
            }
            Ok(Cst::Sequence(matches))
        },
        Rule::Repetition(c) => {
            let ghost whole = eval_rep(
                g,
                c@,
                p0 as int,
                iv,
                (fuel - 1) as nat,
                Seq::empty(),
                p0 as int,
                p0 as int,
            );
            let mut matches: Vec<Rc<ExistingMatch<N, T>>> = Vec::new();
            let ghost mut m: int = p0 as int;
            let mut done = false;
            while !done
                invariant
                    g == grammar_view(rules@),
                    iv == symbols_view(input@),
                    memo_ok(g, iv, memo@),
                    p0 <= *pos <= input.len(),
                    input.len() + 2 <= usize::MAX,
                    *old(end) <= *end <= input.len() + 1,
                    *pos <= imax(*end as int, p0 as int),
                    *pos <= m <= imax(*end as int, p0 as int),
                    m <= input.len() + 1,
                    whole is Some,
                    fuel > 0,
                    p0 == *old(pos),
                    eval(g, name@, p0 as int, iv, fuel) == whole,
                    !done ==> eval_rep(
                        g,
                        c@,
                        *pos as int,
                        iv,
                        (fuel - 1) as nat,
                        matches_view(matches@, matches@.len()),
                        p0 as int,
                        m,
                    ) == whole,
                    done ==> whole == Some(
                        (
                            Ok::<PegMatch<N::V, T::V>, PegError<N::V, T::V>>(
                                PegMatch {
                                    cst: PegCst::Repetition(matches_view(matches@, matches@.len())),
                                    len: (*pos - p0) as nat,
                                },
                            ),
                            m,
                        ),
                    ),
                decreases input.len() - *pos + (if done { 0int } else { 1int }),
            {
                let pc = *pos;
                let ghost child = eval(g, c@, pc as int, iv, (fuel - 1) as nat);
                assert(child is Some);
                proof {
                    lemma_eval_bounds(g, c@, pc as int, iv, (fuel - 1) as nat);
                }
                let r = memoized_eval_rule(
                    rules,
                    input,
                    memo,
                    pos,
                    end,
                    c,
                    Ghost((fuel - 1) as nat),
                );
                match r {
                    Ok(mt) => {
                        proof {
                            lemma_matches_view_push(matches@, mt, matches@.len());
                            m = imax(m, child.unwrap().1);
                        }
                        matches.push(mt);
                    },
                    Err(_) => {
                        *pos = pc;
                        proof {
                            m = imax(m, child.unwrap().1);
                        }
                        done = true;
                    },
                }
            }
            Ok(Cst::Repetition(matches))
        },
        Rule::Not(c) => {
            let ghost child = eval(g, c@, p0 as int, iv, (fuel - 1) as nat);
            assert(child is Some);
            if memoized_eval_rule(rules, input, memo, pos, end, c, Ghost((fuel - 1) as nat)).is_ok() {
                Err(ParserError::Unexpected(c.duplicate()))
            } else {
                *pos = p0;
                Ok(Cst::Not(c.duplicate()))
            }
        },
    }
}

/// A column's outcomes stay valid on another input that looks the same (shifted by `d`) over
/// every stretch the column's entries examined.
proof fn lemma_column_shift<N: View, T: View>(
    g: Seq<(N::V, PegRule<N::V, T::V>)>,
    a: Seq<T::V>,
    b: Seq<T::V>,
    d: int,
    p: int,
    col: Column<N, T>,
)
    requires
        column_ok(g, a, p, col),
        0 <= p <= a.len(),
        0 <= p + d <= b.len(),
        agree(a, b, d, p, p + col.max_examined_length),
        p + d + col.max_examined_length <= b.len() + 1,
    ensures
        column_ok(g, b, p + d, col),
{
    assert forall|i: int|
        0 <= i < g.len() && (#[trigger] col.memo@[i]) is Some implies entry_ok(
        g,
        b,
        p + d,
        i,
        col.memo@[i].unwrap(),
    ) && col.memo@[i].unwrap().examined_length <= col.max_examined_length by {
        let n = g[i].0;
        let f = choose|f: nat| #[trigger] eval(g, n, p, a, f) is Some;
        lemma_outcome(g, n, p, a, f);
        lemma_eval_shift(g, n, p, a, b, d, f);
        lemma_outcome(g, n, p + d, b, f);
    }
}

/// Removes the entries of the column at `pos` that examined input at or after `start`, and
/// recomputes the column's largest examined length.
fn invalidate_entries_in_column<N, T>(col: &mut Column<N, T>, pos: usize, start: usize)
    requires
        pos <= start,
    ensures
        final(col).memo@.len() == old(col).memo@.len(),
        final(col).max_examined_length <= start - pos,
        forall|i: int|
            0 <= i < final(col).memo@.len() && (#[trigger] final(col).memo@[i]) is Some ==> {
                &&& final(col).memo@[i] == old(col).memo@[i]
                &&& final(col).memo@[i].unwrap().examined_length
                    <= final(col).max_examined_length
            },
{
    let mut new_max: usize = 0;
    let mut i: usize = 0;
    while i < col.memo.len()
        invariant
            i <= col.memo@.len(),
            col.memo@.len() == old(col).memo@.len(),
            pos <= start,
            new_max <= start - pos,
            forall|j: int| i <= j < col.memo@.len() ==> #[trigger] col.memo@[j] == old(col).memo@[j],
            forall|j: int|
                0 <= j < i && (#[trigger] col.memo@[j]) is Some ==> {
                    &&& col.memo@[j] == old(col).memo@[j]
                    &&& col.memo@[j].unwrap().examined_length <= new_max
                },
        decreases col.memo@.len() - i,
    {
        let remove = match &col.memo[i] {
            Some(entry) => {
                if entry.examined_length > start - pos {
                    true
                } else {
                    if entry.examined_length > new_max {
                        new_max = entry.examined_length;
                    }
                    false
                }
            },
            None => false,
        };
        if remove {
            col.memo[i] = None;
        }
        i = i + 1;
    }
    col.max_examined_length = new_max;
}

// ---------------------------------------------------------------------------------------------
// Grammars and parsers
// ---------------------------------------------------------------------------------------------

/// Why a list of rules is not a grammar.
#[derive(PartialEq, Debug)]
pub enum GrammarError<N> {
    /// The start rule has no definition.
    MissingStart(N),
    /// The rule named first refers to the name second, which has no definition.
    UndefinedReference(N, N),
}

/// How syntax-tree traversals treat the nodes of a rule.
#[derive(Clone, Copy, Debug, PartialEq, Eq, Structural)]
pub enum TriviaClass {
    /// The node is visited.
    Keep,
    /// The node is stepped over; its children are visited in its place.
    SkipNodeOnly,
    /// The node and everything below it are left out.
    SkipNodeAndChildren,
}

/// A list of named rules in which every referenced name, and the start rule, is defined, with
/// the trivia class of some of the rules.
pub struct Grammar<N, T, P> {
    rules: Vec<(N, Rule<N, T, P>)>,
    start: N,
    trivia: Vec<(N, TriviaClass)>,
}

/// The trivia class of the rule named `n`: its last entry among the first `k` of `trivia`, or
/// [`TriviaClass::Keep`] without one.
pub open spec fn trivia_of<N>(trivia: Seq<(N, TriviaClass)>, n: N, k: int) -> TriviaClass
    decreases k,
{
    if k <= 0 || k > trivia.len() {
        TriviaClass::Keep
    } else if trivia[k - 1].0 == n {
        trivia[k - 1].1
    } else {
        trivia_of(trivia, n, k - 1)
    }
}

impl<N: Symbol, T: Symbol, P: TokenPredicate<T>> Rule<N, T, P> {
    /// A rule with the same view.
    pub fn duplicate(&self) -> (r: Self)
        ensures
            r@ == self@,
    {
        match self {
            Rule::Terminal(ts) => Rule::Terminal(share(ts)),
            Rule::TerminalPredicate(p, pattern) => {
                let q = p.duplicate();
                let r = Rule::TerminalPredicate(q, *pattern);
                assert(r@ =~= self@);
                r
            },
            Rule::Choice(ns) => Rule::Choice(Parser::<N, T, P>::copy_names(ns)),
            Rule::Sequence(ns) => Rule::Sequence(Parser::<N, T, P>::copy_names(ns)),
            Rule::Repetition(n) => Rule::Repetition(n.duplicate()),
            Rule::Not(n) => Rule::Not(n.duplicate()),
            Rule::Nothing => Rule::Nothing,
        }
    }
}

/// A grammar together with a token buffer and the memo table of earlier rule applications.
pub struct Parser<N, T, P> {
    rules: Vec<(N, Rule<N, T, P>)>,
    buffer: Vec<T>,
    memo_table: Vec<Column<N, T>>,
    start: N,
}

/// The outcome of parsing `input` from the start rule: the start rule's match, which must cover
/// the whole input.
pub open spec fn parse_outcome<N, T>(
    g: Seq<(N, PegRule<N, T>)>,
    start: N,
    input: Seq<T>,
) -> Result<PegMatch<N, T>, PegError<N, T>> {
    match outcome(g, start, 0, input).0 {
        Ok(m) => if m.len == input.len() {
            Ok(m)
        } else {
            Err(PegError::ExpectedEof)
        },
        Err(e) => Err(e),
    }
}

/// `input` with the tokens from `start` up to `end` replaced by `r`.
pub open spec fn spliced<T>(input: Seq<T>, start: int, end: int, r: Seq<T>) -> Seq<T> {
    input.subrange(0, start) + r + input.subrange(end, input.len() as int)
}

impl<N: Symbol, T: Symbol, P: TokenPredicate<T>> Grammar<N, T, P> {
    pub closed spec fn grammar(&self) -> Seq<(N::V, PegRule<N::V, T::V>)> {
        grammar_view(self.rules@)
    }

    pub closed spec fn start_rule(&self) -> N::V {
        self.start@
    }

    /// The trivia classes given to rules, in order; a later entry for a name wins.
    pub closed spec fn trivia(&self) -> Seq<(N::V, TriviaClass)> {
        self.trivia@.map_values(|p: (N, TriviaClass)| (p.0@, p.1))
    }

    /// Every referenced name, and the start rule, has a definition.
    pub closed spec fn wf(&self) -> bool {
        closed(self.grammar()) && defined(self.grammar(), self.start_rule())
    }

    /// The same grammar with the given trivia classes.
    pub fn with_trivia(self, trivia: Vec<(N, TriviaClass)>) -> (r: Self)
        ensures
            r.wf() == self.wf(),
            r.grammar() == self.grammar(),
            r.start_rule() == self.start_rule(),
            r.trivia() == trivia@.map_values(|p: (N, TriviaClass)| (p.0@, p.1)),
    {
        Grammar { rules: self.rules, start: self.start, trivia }
    }

    /// The trivia class of the rule named `name`.
    pub fn trivia_class(&self, name: &N) -> (r: TriviaClass)
        ensures
            r == trivia_of(self.trivia(), name@, self.trivia().len() as int),
    {
        let ghost tv = self.trivia();
        let mut k = self.trivia.len();
        while k > 0
            invariant
                k <= self.trivia.len(),
                tv == self.trivia(),
                trivia_of(tv, name@, tv.len() as int) == trivia_of(tv, name@, k as int),
            decreases k,
        {
            if self.trivia[k - 1].0.same(name) {
                return self.trivia[k - 1].1;
            }
            k = k - 1;
        }
        TriviaClass::Keep
    }

    /// The rule that `name` denotes, if it is defined.
    pub fn rule(&self, name: &N) -> (r: Option<&Rule<N, T, P>>)
        ensures
            match r {
                Some(rule) => 0 <= rule_index(self.grammar(), name@) && rule@ == self.grammar()[rule_index(
                    self.grammar(),
                    name@,
                )].1,
                None => rule_index(self.grammar(), name@) == -1,
            },
    {
        match find_rule(&self.rules, name) {
            Some(i) => Some(&self.rules[i].1),
            None => None,
        }
    }

    /// The start rule.
    pub fn start(&self) -> (r: &N)
        ensures
            r@ == self.start_rule(),
    {
        &self.start
    }

    /// A grammar with the same view.
    pub fn copy(&self) -> (r: Self)
        ensures
            r.wf() == self.wf(),
            r.grammar() == self.grammar(),
            r.start_rule() == self.start_rule(),
            r.trivia() == self.trivia(),
    {
        let mut rules: Vec<(N, Rule<N, T, P>)> = Vec::new();
        let mut i: usize = 0;
        while i < self.rules.len()
            invariant
                i <= self.rules.len(),
                grammar_view(rules@) == grammar_view(self.rules@.subrange(0, i as int)),
            decreases self.rules.len() - i,
        {
            let item = (self.rules[i].0.duplicate(), self.rules[i].1.duplicate());
            let ghost before = rules@;
            rules.push(item);
            proof {
                assert(grammar_view(self.rules@.subrange(0, i + 1)) =~= grammar_view(
                    self.rules@.subrange(0, i as int),
                ).push((self.rules@[i as int].0@, self.rules@[i as int].1@)));
                assert(grammar_view(before.push(item)) =~= grammar_view(before).push(
                    (item.0@, item.1@),
                ));
            }
            i = i + 1;
        }
        let mut trivia: Vec<(N, TriviaClass)> = Vec::new();
        let mut j: usize = 0;
        while j < self.trivia.len()
            invariant
                j <= self.trivia.len(),
                trivia@.map_values(|p: (N, TriviaClass)| (p.0@, p.1)) == self.trivia@.subrange(
                    0,
                    j as int,
                ).map_values(|p: (N, TriviaClass)| (p.0@, p.1)),
            decreases self.trivia.len() - j,
        {
            let item = (self.trivia[j].0.duplicate(), self.trivia[j].1);
            let ghost before = trivia@;
            trivia.push(item);
            proof {
                assert(self.trivia@.subrange(0, j + 1).map_values(|p: (N, TriviaClass)| (p.0@, p.1))
                    =~= self.trivia@.subrange(0, j as int).map_values(
                    |p: (N, TriviaClass)| (p.0@, p.1),
                ).push((self.trivia@[j as int].0@, self.trivia@[j as int].1)));
                assert(before.push(item).map_values(|p: (N, TriviaClass)| (p.0@, p.1))
                    =~= before.map_values(|p: (N, TriviaClass)| (p.0@, p.1)).push(
                    (item.0@, item.1),
                ));
            }
            j = j + 1;
        }
        proof {
            assert(self.rules@.subrange(0, self.rules@.len() as int) =~= self.rules@);
            assert(self.trivia@.subrange(0, self.trivia@.len() as int) =~= self.trivia@);
        }
        Grammar { rules, start: self.start.duplicate(), trivia }
    }

    /// A parser for this grammar over the given tokens, with an empty memo table.
    pub fn parser(self, buffer: Vec<T>) -> (p: Parser<N, T, P>)
        requires
            self.wf(),
            buffer.len() + 2 <= usize::MAX,
        ensures
            p.wf(),
            p.grammar() == self.grammar(),
            p.start_rule() == self.start_rule(),
            p.input() == symbols_view(buffer@),
    {
        let n = self.rules.len();
        let mut memo_table: Vec<Column<N, T>> = Vec::new();
        let mut p: usize = 0;
        while p <= buffer.len()
            invariant
                p <= buffer.len() + 1,
                buffer.len() + 2 <= usize::MAX,
                n == self.rules.len(),
                memo_table@.len() == p,
                forall|q: int|
                    0 <= q < p ==> column_ok(
                        grammar_view(self.rules@),
                        symbols_view(buffer@),
                        q,
                        #[trigger] memo_table@[q],
                    ),
            decreases buffer.len() + 1 - p,
        {
            memo_table.push(Column::empty(n));
            p = p + 1;
        }
        Parser { rules: self.rules, buffer, memo_table, start: self.start }
    }
}

impl<N, T> Column<N, T> {
    /// A column without memoised applications, with a slot for each of `n` rules.
    fn empty(n: usize) -> (c: Self)
        ensures
            c.memo@.len() == n,
            c.max_examined_length == 0,
            forall|i: int| 0 <= i < n ==> #[trigger] c.memo@[i] is None,
    {
        let mut memo: Vec<Option<MemoTableEntry<N, T>>> = Vec::new();
        let mut i: usize = 0;
        while i < n
            invariant
                i <= n,
                memo@.len() == i,
                forall|j: int| 0 <= j < i ==> #[trigger] memo@[j] is None,
            decreases n - i,
        {
            memo.push(None);
            i = i + 1;
        }
        Column { memo, max_examined_length: 0 }
    }
}

impl<N: Symbol, T: Symbol, P: TokenPredicate<T>> Parser<N, T, P> {
    pub closed spec fn grammar(&self) -> Seq<(N::V, PegRule<N::V, T::V>)> {
        grammar_view(self.rules@)
    }

    pub closed spec fn start_rule(&self) -> N::V {
        self.start@
    }

    /// The token buffer.
    pub closed spec fn input(&self) -> Seq<T::V> {
        symbols_view(self.buffer@)
    }

    /// The grammar is closed, the start rule defined, and the memo table holds only outcomes of
    /// the current buffer.
    pub closed spec fn wf(&self) -> bool {
        &&& closed(self.grammar())
        &&& defined(self.grammar(), self.start_rule())
        &&& memo_ok(self.grammar(), self.input(), self.memo_table@)
        &&& self.buffer.len() + 2 <= usize::MAX
    }

    /// Checks that `rules` form a grammar with start rule `start`: the start rule and every name
    /// that a rule refers to have a definition. A name defined twice denotes its last definition.
    pub fn from_rules(start: N, rules: Vec<(N, Rule<N, T, P>)>) -> (r: Result<
        Grammar<N, T, P>,
        GrammarError<N>,
    >)
        ensures
            r is Ok <==> defined(grammar_view(rules@), start@) && closed(grammar_view(rules@)),
            r is Ok ==> r->Ok_0.wf() && r->Ok_0.grammar() == grammar_view(rules@)
                && r->Ok_0.start_rule() == start@ && r->Ok_0.trivia() == Seq::<
                (N::V, TriviaClass),
            >::empty(),
            r matches Err(GrammarError::MissingStart(s)) ==> s@ == start@ && !defined(
                grammar_view(rules@),
                start@,
            ),
            r matches Err(GrammarError::UndefinedReference(k, n)) ==> {
                &&& defined(grammar_view(rules@), start@)
                &&& !defined(grammar_view(rules@), n@)
                &&& exists|i: int, j: int|
                    0 <= i < rules.len() && grammar_view(rules@)[i].0 == k@ && 0 <= j
                        < references(grammar_view(rules@)[i].1).len() && references(
                        grammar_view(rules@)[i].1,
                    )[j] == n@
            },
    {
        let ghost g = grammar_view(rules@);
        proof {
            lemma_rule_index(g, start@, g.len() as int);
        }
        if find_rule(&rules, &start).is_none() {
            return Err(GrammarError::MissingStart(start));
        }
        let mut i: usize = 0;
        while i < rules.len()
            invariant
                i <= rules.len(),
                g == grammar_view(rules@),
                defined(g, start@),
                forall|a: int, b: int|
                    0 <= a < i && 0 <= b < references(g[a].1).len() ==> defined(
                        g,
                        #[trigger] references(g[a].1)[b],
                    ),
            decreases rules.len() - i,
        {
            let names: Vec<N> = match &rules[i].1 {
                Rule::Choice(v) => Self::copy_names(v),
                Rule::Sequence(v) => Self::copy_names(v),
                Rule::Repetition(n) => vec![n.duplicate()],
                Rule::Not(n) => vec![n.duplicate()],
                _ => Vec::new(),
            };
            proof {
                assert(symbols_view(names@) =~= references(g[i as int].1));
            }
            let mut j: usize = 0;
            while j < names.len()
                invariant
                    j <= names.len(),
                    i < rules.len(),
                    g == grammar_view(rules@),
                    defined(g, start@),
                    symbols_view(names@) == references(g[i as int].1),
                    forall|b: int| 0 <= b < j ==> defined(g, #[trigger] references(g[i as int].1)[b]),
                decreases names.len() - j,
            {
                proof {
                    lemma_rule_index(g, names@[j as int]@, g.len() as int);
                }
                if find_rule(&rules, &names[j]).is_none() {
                    let k = rules[i].0.duplicate();
                    let n = names[j].duplicate();
                    proof {
                        assert(references(g[i as int].1)[j as int] == n@);
                        assert(g[i as int].0 == k@);
                        assert(0 <= i < rules.len() && g[i as int].0 == k@ && 0 <= j < references(
                            g[i as int].1,
                        ).len() && references(g[i as int].1)[j as int] == n@);
                    }
                    return Err(GrammarError::UndefinedReference(k, n));
                }
                j = j + 1;
            }
            i = i + 1;
        }
        Ok(Grammar { rules, start, trivia: Vec::new() })
    }

    pub(crate) fn copy_names(v: &Vec<N>) -> (r: Vec<N>)
        ensures
            symbols_view(r@) == symbols_view(v@),
    {
        let mut r: Vec<N> = Vec::new();
        let mut i: usize = 0;
        while i < v.len()
            invariant
                i <= v.len(),
                symbols_view(r@) == symbols_view(v@.subrange(0, i as int)),
            decreases v.len() - i,
        {
            r.push(v[i].duplicate());
            proof {
                assert(symbols_view(v@.subrange(0, i + 1)) =~= symbols_view(v@.subrange(0, i as int)).push(v@[i as int]@));
                assert(symbols_view(r@) =~= symbols_view(v@.subrange(0, i as int)).push(v@[i as int]@));
            }
            i = i + 1;
        }
        proof {
            assert(v@.subrange(0, v@.len() as int) =~= v@);
        }
        r
    }

    /// Parses the whole buffer from the start rule, reusing and extending the memo table.
    /// (The application of the start rule must have an outcome: a grammar whose rules call
    /// themselves without consuming input never finishes.)
    pub fn parse(&mut self) -> (r: Result<Rc<ExistingMatch<N, T>>, Rc<ParserError<N, T>>>)
        requires
            old(self).wf(),
            terminates(old(self).grammar(), old(self).start_rule(), 0, old(self).input()),
        ensures
            final(self).wf(),
            final(self).grammar() == old(self).grammar(),
            final(self).start_rule() == old(self).start_rule(),
            final(self).input() == old(self).input(),
            outcome_view(r) == parse_outcome(
                old(self).grammar(),
                old(self).start_rule(),
                old(self).input(),
            ),
    {
        let ghost g = self.grammar();
        let ghost iv = self.input();
        let ghost f = choose|f: nat| #[trigger] eval(g, self.start@, 0, iv, f) is Some;
        proof {
            lemma_outcome(g, self.start@, 0, iv, f);
        }
        let mut pos: usize = 0;
        let mut end: usize = 0;
        let r = memoized_eval_rule(
            &self.rules,
            &self.buffer,
            &mut self.memo_table,
            &mut pos,
            &mut end,
            &self.start,
            Ghost(f),
        );
        let len = self.buffer.len();
        let whole = |_m: &Rc<ExistingMatch<N, T>>| -> (b: bool)
            ensures
                b == (pos == len),
            { pos == len };
        r.filter(Rc::new(ParserError::ExpectedEof), whole)
    }
}

impl<N: Symbol, T: Symbol, P: TokenPredicate<T>> Parser<N, T, P> {
    /// Replaces the tokens in `range` with `r`. Memoised outcomes before the edit that did not
    /// examine any replaced token are kept; those after it are kept and shifted by the change in
    /// length; the rest are discarded.
    pub fn apply_edit(&mut self, range: std::ops::Range<usize>, r: &[T])
        requires
            old(self).wf(),
            range.start <= range.end <= old(self).input().len(),
            old(self).input().len() - (range.end - range.start) + r@.len() + 2 <= usize::MAX,
        ensures
            final(self).wf(),
            final(self).grammar() == old(self).grammar(),
            final(self).start_rule() == old(self).start_rule(),
            final(self).input() == spliced(
                old(self).input(),
                range.start as int,
                range.end as int,
                symbols_view(r@),
            ),
    {
        let s = range.start;
        let e = range.end;
        let k = r.len();
        let ghost g = self.grammar();
        let ghost a = self.input();
        let ghost len = a.len();
        let ghost b = spliced(a, s as int, e as int, symbols_view(r@));
        let ghost old_table = self.memo_table@;
        let ghost d = s + k - e;
        // the tokens
        let mut tail = self.buffer.split_off(e);
        self.buffer.truncate(s);
        let mut i: usize = 0;
        while i < k
            invariant
                i <= k,
                k == r@.len(),
                self.buffer@.len() == s + i,
                symbols_view(self.buffer@) == a.subrange(0, s as int) + symbols_view(
                    r@.subrange(0, i as int),
                ),
                self.rules == old(self).rules,
                self.start == old(self).start,
                self.memo_table == old(self).memo_table,
            decreases k - i,
        {
            let ghost before = self.buffer@;
            let t = r[i].duplicate();
            self.buffer.push(t);
            proof {
                assert(symbols_view(r@.subrange(0, i + 1)) =~= symbols_view(
                    r@.subrange(0, i as int),
                ).push(r@[i as int]@));
                assert(symbols_view(before.push(t)) =~= symbols_view(before).push(t@));
                assert(symbols_view(self.buffer@) =~= a.subrange(0, s as int) + symbols_view(
                    r@.subrange(0, i + 1),
                ));
            }
            i = i + 1;
        }
        let ghost mid = self.buffer@;
        self.buffer.append(&mut tail);
        proof {
            assert(r@.subrange(0, k as int) =~= r@);
            assert(symbols_view(mid + tail@) =~= symbols_view(mid) + symbols_view(tail@));
            assert(symbols_view(self.buffer@) =~= b);
            assert forall|j: int| 0 <= j < s implies #[trigger] agree_at(a, b, 0, j) by {}
            assert forall|j: int| e <= j implies #[trigger] agree_at(a, b, d, j) by {
                if j < len {
                    assert(b[j + d] == a[j]);
                }
            }
        }
        // the memo table
        let n = self.rules.len();
        proof {
            assert(old_table.len() == len + 1);
        }
        let mut memo_tail = self.memo_table.split_off(e);
        self.memo_table.truncate(s);
        let mut pos: usize = 0;
        while pos < s
            invariant
                pos <= s,
                s <= e <= len,
                len + 2 <= usize::MAX,
                self.rules == old(self).rules,
                self.start == old(self).start,
                symbols_view(self.buffer@) == b,
                self.memo_table@.len() == s,
                old_table.len() == len + 1,
                memo_ok(g, a, old_table),
                forall|j: int| 0 <= j < s ==> #[trigger] agree_at(a, b, 0, j),
                b.len() == len - (e - s) + k,
                forall|q: int| pos <= q < s ==> #[trigger] self.memo_table@[q] == old_table[q],
                forall|q: int| 0 <= q < pos ==> column_ok(g, b, q, #[trigger] self.memo_table@[q]),
            decreases s - pos,
        {
            proof {
                assert(column_ok(g, a, pos as int, old_table[pos as int]));
            }
            if pos + self.memo_table[pos].max_examined_length > s {
                let ghost before = self.memo_table@;
                let mut col = Column { memo: Vec::new(), max_examined_length: 0 };
                std::mem::swap(&mut col, &mut self.memo_table[pos]);
                let ghost c0 = col;
                invalidate_entries_in_column(&mut col, pos, s);
                proof {
                    assert forall|i: int|
                        0 <= i < g.len() && (#[trigger] col.memo@[i]) is Some implies entry_ok(
                        g,
                        a,
                        pos as int,
                        i,
                        col.memo@[i].unwrap(),
                    ) && col.memo@[i].unwrap().examined_length <= col.max_examined_length by {
                        assert(c0.memo@[i] is Some);
                    }
                    assert(column_ok(g, a, pos as int, col));
                    lemma_column_shift(g, a, b, 0, pos as int, col);
                }
                std::mem::swap(&mut col, &mut self.memo_table[pos]);
                proof {
                    assert forall|q: int| pos < q < s implies #[trigger] self.memo_table@[q]
                        == old_table[q] by {
                        assert(self.memo_table@[q] == before[q]);
                    }
                    assert forall|q: int| 0 <= q < pos + 1 implies column_ok(
                        g,
                        b,
                        q,
                        #[trigger] self.memo_table@[q],
                    ) by {
                        if q < pos {
                            assert(self.memo_table@[q] == before[q]);
                        }
                    }
                }
            } else {
                proof {
                    lemma_column_shift(g, a, b, 0, pos as int, old_table[pos as int]);
                }
            }
            pos = pos + 1;
        }
        let mut i: usize = 0;
        while i < k
            invariant
                i <= k,
                self.rules == old(self).rules,
                self.start == old(self).start,
                symbols_view(self.buffer@) == b,
                self.memo_table@.len() == s + i,
                n == g.len(),
                s + k <= b.len(),
                forall|q: int|
                    0 <= q < s + i ==> column_ok(g, b, q, #[trigger] self.memo_table@[q]),
            decreases k - i,
        {
            let ghost before = self.memo_table@;
            let c = Column::empty(n);
            self.memo_table.push(c);
            proof {
                assert(column_ok(g, b, (s + i) as int, c));
                assert forall|q: int| 0 <= q < s + i + 1 implies column_ok(
                    g,
                    b,
                    q,
                    #[trigger] self.memo_table@[q],
                ) by {
                    if q < s + i {
                        assert(self.memo_table@[q] == before[q]);
                    }
                }
            }
            i = i + 1;
        }
        let ghost head = self.memo_table@;
        self.memo_table.append(&mut memo_tail);
        proof {
            assert forall|q: int| 0 <= q < self.memo_table@.len() implies column_ok(
                g,
                b,
                q,
                #[trigger] self.memo_table@[q],
            ) by {
                if q < s + k {
                    assert(self.memo_table@[q] == head[q]);
                } else {
                    let q0 = q - d;
                    assert(self.memo_table@[q] == old_table[q0]);
                    assert(column_ok(g, a, q0, old_table[q0]));
                    lemma_column_shift(g, a, b, d, q0, old_table[q0]);
                }
            }
        }
    }
}

} // verus!
