//! Syntax trees over the parser's concrete syntax trees: a node knows the rule that produced it,
//! where it starts in the token stream, and its parent.
use vstd::prelude::*;
use std::rc::Rc;
use crate::parser::{
    all_mirror, lemma_all_mirror_index, lemma_lens_sum_mono, lemma_matches_view_index,
    lens_sum, match_view, mirrors, rule_index, share, trivia_of, Cst, ExistingMatch, Grammar,
    Parser, PegCst, PegMatch, PegRule, Rule, Symbol, TokenPredicate, TriviaClass, symbols_view,
};
use crate::lexer::{SpecToken, Token};

verus! {

/// A node of a concrete syntax tree, shared between the trees that hold it.
pub struct GreenNode<N, T>(pub Rc<ExistingMatch<N, T>>);

/// The subtrees of a tree: the chosen option of a choice, the parts of a sequence, the
/// repetitions of a repetition.
pub open spec fn green_children<N, T>(m: PegMatch<N, T>) -> Seq<PegMatch<N, T>> {
    match m.cst {
        PegCst::Choice(_, b) => seq![*b],
        PegCst::Sequence(ms) => ms,
        PegCst::Repetition(ms) => ms,
        _ => Seq::empty(),
    }
}

/// Where the `i`-th subtree of `m` starts, relative to `m`.
pub open spec fn offset_in<N, T>(m: PegMatch<N, T>, i: int) -> int {
    lens_sum(green_children(m), i) as int
}

/// The rules that produced the subtrees of `m`, which the rule named `kind` produced.
pub open spec fn child_names<N, T>(g: Seq<(N, PegRule<N, T>)>, kind: N, m: PegMatch<N, T>) -> Seq<
    N,
> {
    match g[rule_index(g, kind)].1 {
        PegRule::Choice(_) => match m.cst {
            PegCst::Choice(c, _) => seq![c],
            _ => Seq::empty(),
        },
        PegRule::Sequence(parts) => parts,
        PegRule::Repetition(c) => Seq::new(green_children(m).len(), |k: int| c),
        _ => Seq::empty(),
    }
}

impl<N: Symbol, T: Symbol> GreenNode<N, T> {
    pub open spec fn tree(&self) -> PegMatch<N::V, T::V> {
        match_view(*self.0)
    }

    /// The subtrees of this node.
    pub fn children(&self) -> (r: Vec<GreenNode<N, T>>)
        ensures
            r@.len() == green_children(self.tree()).len(),
            forall|i: int| 0 <= i < r@.len() ==> #[trigger] r@[i].tree() == green_children(self.tree())[i],
    {
        match &self.0.cst {
            Cst::Choice(_, child) => {
                let r = vec![GreenNode(share(child))];
                assert(r@[0].tree() == green_children(self.tree())[0]);
                r
            },
            Cst::Sequence(children) => Self::all(children),
            Cst::Repetition(children) => Self::all(children),
            _ => Vec::new(),
        }
    }

    fn all(children: &Vec<Rc<ExistingMatch<N, T>>>) -> (r: Vec<GreenNode<N, T>>)
        ensures
            r@.len() == children@.len(),
            crate::parser::matches_view(children@, children@.len()).len() == children@.len(),
            forall|i: int|
                0 <= i < r@.len() ==> #[trigger] r@[i].tree() == crate::parser::matches_view(
                    children@,
                    children@.len(),
                )[i],
    {
        proof {
            crate::parser::lemma_matches_view_len(children@, children@.len());
        }
        let mut r: Vec<GreenNode<N, T>> = Vec::new();
        let mut i: usize = 0;
        while i < children.len()
            invariant
                i <= children.len(),
                r@.len() == i,
                forall|j: int| 0 <= j < i ==> #[trigger] r@[j].tree() == match_view(*children@[j]),
            decreases children.len() - i,
        {
            r.push(GreenNode(share(&children[i])));
            i = i + 1;
        }
        proof {
            assert forall|j: int| 0 <= j < r@.len() implies #[trigger] r@[j].tree()
                == crate::parser::matches_view(children@, children@.len())[j] by {
                lemma_matches_view_index(children@, children@.len(), j);
            }
        }
        r
    }
}

/// A node of a syntax tree: the grammar, where the node starts in the token stream, its concrete
/// syntax tree, and its parent with the rule through which the parent reached it.
pub struct SyntaxData<N, T, P> {
    pub grammar: Rc<Grammar<N, T, P>>,
    pub offset: usize,
    pub node: GreenNode<N, T>,
    pub parent: Option<(SyntaxNode<N, T, P>, N)>,
}

/// A shared syntax-tree node.
pub struct SyntaxNode<N, T, P>(pub Rc<SyntaxData<N, T, P>>);

impl<N: Symbol, T: Symbol, P: TokenPredicate<T>> SyntaxNode<N, T, P> {
    /// The rule that produced the node: the one its parent reached it through, or the start rule.
    pub open spec fn spec_kind(&self) -> N::V {
        match self.0.parent {
            Some(p) => p.1@,
            None => self.0.grammar.start_rule(),
        }
    }

    pub open spec fn tree(&self) -> PegMatch<N::V, T::V> {
        self.0.node.tree()
    }

    /// The node's tree mirrors its rule in a closed grammar, and the node ends within a `usize`.
    pub open spec fn wf(&self) -> bool {
        &&& self.0.grammar.wf()
        &&& mirrors(self.0.grammar.grammar(), self.spec_kind(), self.tree())
        &&& self.0.offset + self.tree().len <= usize::MAX
    }

    /// The root of a syntax tree over `node`.
    pub fn new_root(grammar: Rc<Grammar<N, T, P>>, node: GreenNode<N, T>) -> (r: SyntaxNode<N, T, P>)
        ensures
            r.0.grammar == grammar,
            r.0.offset == 0,
            r.0.node == node,
            r.0.parent is None,
            r.spec_kind() == grammar.start_rule(),
    {
        SyntaxNode(Rc::new(SyntaxData { grammar, offset: 0, node, parent: None }))
    }

    /// A second handle on this node.
    pub fn share(&self) -> (r: SyntaxNode<N, T, P>)
        ensures
            r == *self,
    {
        SyntaxNode(share(&self.0))
    }

    pub fn parent(&self) -> (r: Option<SyntaxNode<N, T, P>>)
        ensures
            match self.0.parent {
                Some(p) => r == Some(p.0),
                None => r is None,
            },
    {
        match &self.0.parent {
            Some(p) => Some(p.0.share()),
            None => None,
        }
    }

    /// The number of tokens the node covers.
    pub fn length(&self) -> (r: usize)
        ensures
            r == self.tree().len,
    {
        self.0.node.0.match_length
    }

    /// The rule that produced the node.
    pub fn kind(&self) -> (r: N)
        ensures
            r@ == self.spec_kind(),
    {
        match &self.0.parent {
            Some(p) => p.1.duplicate(),
            None => self.0.grammar.start().duplicate(),
        }
    }

    pub fn trivia_class(&self) -> (r: TriviaClass)
        ensures
            r == trivia_of(
                self.0.grammar.trivia(),
                self.spec_kind(),
                self.0.grammar.trivia().len() as int,
            ),
    {
        let k = self.kind();
        self.0.grammar.trivia_class(&k)
    }

    pub fn is_trivia(&self) -> (r: bool)
        ensures
            r == (trivia_of(
                self.0.grammar.trivia(),
                self.spec_kind(),
                self.0.grammar.trivia().len() as int,
            ) != TriviaClass::Keep),
    {
        self.trivia_class() != TriviaClass::Keep
    }

    /// The children of the node, each reached through the rule that produced it, starting where
    /// the subtrees before it end.
    pub fn children(&self) -> (r: Vec<SyntaxNode<N, T, P>>)
        requires
            self.wf(),
        ensures
            r@.len() == green_children(self.tree()).len(),
            forall|i: int|
                0 <= i < r@.len() ==> {
                    let c = #[trigger] r@[i];
                    &&& c.0.grammar == self.0.grammar
                    &&& c.0.offset == self.0.offset + offset_in(self.tree(), i)
                    &&& c.tree() == green_children(self.tree())[i]
                    &&& c.0.parent matches Some(p) && p.0 == *self
                    &&& c.spec_kind() == child_names(
                        self.0.grammar.grammar(),
                        self.spec_kind(),
                        self.tree(),
                    )[i]
                    &&& c.wf()
                },
    {
        let ghost g = self.0.grammar.grammar();
        let ghost m = self.tree();
        let kind = self.kind();
        let greens = self.0.node.children();
        let names: Vec<N> = match self.0.grammar.rule(&kind) {
            Some(Rule::Choice(_)) => match &self.0.node.0.cst {
                Cst::Choice(chosen, _) => vec![chosen.duplicate()],
                _ => Vec::new(),
            },
            Some(Rule::Sequence(parts)) => Parser::<N, T, P>::copy_names(parts),
            Some(Rule::Repetition(c)) => {
                let mut v: Vec<N> = Vec::new();
                let mut k: usize = 0;
                while k < greens.len()
                    invariant
                        k <= greens.len(),
                        v@.len() == k,
                        forall|j: int| 0 <= j < k ==> #[trigger] v@[j]@ == c@,
                    decreases greens.len() - k,
                {
                    v.push(c.duplicate());
                    k = k + 1;
                }
                v
            },
            _ => Vec::new(),
        };
        proof {
            assert(crate::parser::symbols_view(names@) =~= child_names(g, kind@, m));
            assert(names@.len() == greens@.len());
        }
        let mut r: Vec<SyntaxNode<N, T, P>> = Vec::new();
        let mut offset = self.0.offset;
        let mut i: usize = 0;
        while i < greens.len()
            invariant
                i <= greens.len(),
                names@.len() == greens@.len(),
                greens@.len() == green_children(m).len(),
                forall|j: int| 0 <= j < greens@.len() ==> #[trigger] greens@[j].tree() == green_children(m)[j],
                crate::parser::symbols_view(names@) == child_names(g, kind@, m),
                g == self.0.grammar.grammar(),
                m == self.tree(),
                kind@ == self.spec_kind(),
                self.wf(),
                offset == self.0.offset + offset_in(m, i as int),
                r@.len() == i,
                forall|j: int|
                    0 <= j < i ==> {
                        let c = #[trigger] r@[j];
                        &&& c.0.grammar == self.0.grammar
                        &&& c.0.offset == self.0.offset + offset_in(m, j)
                        &&& c.tree() == green_children(m)[j]
                        &&& c.0.parent matches Some(p) && p.0 == *self
                        &&& c.spec_kind() == child_names(g, self.spec_kind(), m)[j]
                        &&& c.wf()
                    },
            decreases greens.len() - i,
        {
            let ghost ct = green_children(m)[i as int];
            proof {
                assert(crate::parser::symbols_view(names@)[i as int] == names@[i as int]@);
                self.lemma_child(i as int);
            }
            let len = greens[i].0.match_length;
            assert(greens@[i as int].tree() == ct);
            assert(len == ct.len);
            assert(offset + len <= self.0.offset + m.len);
            let child = SyntaxNode(
                Rc::new(
                    SyntaxData {
                        grammar: share(&self.0.grammar),
                        offset,
                        node: GreenNode(share(&greens[i].0)),
                        parent: Some((self.share(), names[i].duplicate())),
                    },
                ),
            );
            r.push(child);
            offset = offset + len;
            i = i + 1;
        }
        r
    }

    /// The `i`-th subtree mirrors its rule and ends within the node.
    proof fn lemma_child(&self, i: int)
        requires
            self.wf(),
            0 <= i < green_children(self.tree()).len(),
        ensures
            mirrors(
                self.0.grammar.grammar(),
                child_names(self.0.grammar.grammar(), self.spec_kind(), self.tree())[i],
                green_children(self.tree())[i],
            ),
            offset_in(self.tree(), i) + green_children(self.tree())[i].len <= self.tree().len,
            offset_in(self.tree(), i + 1) == offset_in(self.tree(), i) + green_children(
                self.tree(),
            )[i].len,
            child_names(self.0.grammar.grammar(), self.spec_kind(), self.tree()).len()
                == green_children(self.tree()).len(),
    {
        let g = self.0.grammar.grammar();
        let m = self.tree();
        let n = self.spec_kind();
        match m.cst {
            PegCst::Sequence(ms) => {
                lemma_all_mirror_index(g, child_names(g, n, m), ms, ms.len(), i);
                lemma_lens_sum_mono(ms, i + 1, ms.len() as int);
            },
            PegCst::Repetition(ms) => {
                lemma_all_mirror_index(g, child_names(g, n, m), ms, ms.len(), i);
                lemma_lens_sum_mono(ms, i + 1, ms.len() as int);
            },
            _ => {},
        }
    }
}

// ---------------------------------------------------------------------------------------------
// Traversal
// ---------------------------------------------------------------------------------------------

/// The height of a tree: one more than its tallest subtree.
pub open spec fn height<N, T>(m: PegMatch<N, T>) -> nat
    decreases m, 1nat,
{
    match m.cst {
        PegCst::Choice(_, b) => height(*b) + 1,
        PegCst::Sequence(ms) => max_height(ms, ms.len()) + 1,
        PegCst::Repetition(ms) => max_height(ms, ms.len()) + 1,
        _ => 1,
    }
}

/// The height of the tallest of the first `k` trees.
pub open spec fn max_height<N, T>(ms: Seq<PegMatch<N, T>>, k: nat) -> nat
    decreases ms, k,
{
    if k == 0 || k > ms.len() {
        0
    } else {
        let a = max_height(ms, (k - 1) as nat);
        let b = height(ms[k - 1]);
        if a >= b {
            a
        } else {
            b
        }
    }
}

/// One entry of a preorder traversal: depth, rule, offset and tree of a node.
pub type PreorderEntry<N, T> = (int, N, int, PegMatch<N, T>);

/// The nodes of the tree `m` (produced by the rule `kind`, at `offset`) in preorder, at their
/// depths counted from `depth`: a kept node comes before its descendants, one level deeper; a
/// node skipped alone lets its children take its place; a node skipped with its children
/// contributes nothing.
pub open spec fn preorder_spec<N, T>(
    g: Seq<(N, PegRule<N, T>)>,
    trivia: Seq<(N, TriviaClass)>,
    depth: int,
    kind: N,
    offset: int,
    m: PegMatch<N, T>,
) -> Seq<PreorderEntry<N, T>>
    decreases m, 1nat,
{
    match trivia_of(trivia, kind, trivia.len() as int) {
        TriviaClass::Keep => seq![(depth, kind, offset, m)] + preorder_below(
            g,
            trivia,
            depth + 1,
            kind,
            offset,
            m,
        ),
        TriviaClass::SkipNodeOnly => preorder_below(g, trivia, depth, kind, offset, m),
        TriviaClass::SkipNodeAndChildren => Seq::empty(),
    }
}

/// The preorder traversals of the subtrees of `m`, one after the other, at `depth`.
pub open spec fn preorder_below<N, T>(
    g: Seq<(N, PegRule<N, T>)>,
    trivia: Seq<(N, TriviaClass)>,
    depth: int,
    kind: N,
    offset: int,
    m: PegMatch<N, T>,
) -> Seq<PreorderEntry<N, T>>
    decreases m, 0nat,
{
    match m.cst {
        PegCst::Choice(c, b) => preorder_spec(g, trivia, depth, c, offset, *b),
        PegCst::Sequence(ms) => preorder_list(
            g,
            trivia,
            depth,
            child_names(g, kind, m),
            ms,
            offset,
            ms.len(),
        ),
        PegCst::Repetition(ms) => preorder_list(
            g,
            trivia,
            depth,
            child_names(g, kind, m),
            ms,
            offset,
            ms.len(),
        ),
        _ => Seq::empty(),
    }
}

/// The preorder traversals of the first `k` of the trees `ms`, produced by the rules `names`,
/// laid out one after the other from `base`.
pub open spec fn preorder_list<N, T>(
    g: Seq<(N, PegRule<N, T>)>,
    trivia: Seq<(N, TriviaClass)>,
    depth: int,
    names: Seq<N>,
    ms: Seq<PegMatch<N, T>>,
    base: int,
    k: nat,
) -> Seq<PreorderEntry<N, T>>
    decreases ms, k,
{
    if k == 0 || k > ms.len() {
        Seq::empty()
    } else {
        preorder_list(g, trivia, depth, names, ms, base, (k - 1) as nat) + preorder_spec(
            g,
            trivia,
            depth,
            names[k - 1],
            base + lens_sum(ms, k - 1),
            ms[k - 1],
        )
    }
}

/// The traversals of the first `i` subtrees of `m`.
pub open spec fn preorder_below_prefix<N, T>(
    g: Seq<(N, PegRule<N, T>)>,
    trivia: Seq<(N, TriviaClass)>,
    depth: int,
    kind: N,
    offset: int,
    m: PegMatch<N, T>,
    i: nat,
) -> Seq<PreorderEntry<N, T>> {
    match m.cst {
        PegCst::Choice(c, b) => if i == 0 {
            Seq::empty()
        } else {
            preorder_spec(g, trivia, depth, c, offset, *b)
        },
        PegCst::Sequence(ms) => preorder_list(
            g,
            trivia,
            depth,
            child_names(g, kind, m),
            ms,
            offset,
            i,
        ),
        PegCst::Repetition(ms) => preorder_list(
            g,
            trivia,
            depth,
            child_names(g, kind, m),
            ms,
            offset,
            i,
        ),
        _ => Seq::empty(),
    }
}

/// The rule through which a child is reached: the chosen option of a choice, the matching part
/// of a sequence, the repeated rule of a repetition; and the child's tree mirrors that rule.
pub proof fn lemma_child_names<N, T>(g: Seq<(N, PegRule<N, T>)>, kind: N, m: PegMatch<N, T>, i: int)
    requires
        mirrors(g, kind, m),
        0 <= i < green_children(m).len(),
    ensures
        child_names(g, kind, m).len() == green_children(m).len(),
        g[rule_index(g, kind)].1 is Choice ==> (m.cst matches PegCst::Choice(c, _) && child_names(g, kind, m)[i]
            == c),
        g[rule_index(g, kind)].1 matches PegRule::Sequence(parts) ==> child_names(g, kind, m)[i] == parts[i],
        g[rule_index(g, kind)].1 matches PegRule::Repetition(c) ==> child_names(g, kind, m)[i] == c,
        mirrors(g, child_names(g, kind, m)[i], green_children(m)[i]),
{
    match g[rule_index(g, kind)].1 {
        PegRule::Sequence(parts) => {
            if let PegCst::Sequence(ms) = m.cst {
                lemma_all_mirror_index(g, parts, ms, ms.len(), i);
            }
        },
        PegRule::Repetition(c) => {
            if let PegCst::Repetition(ms) = m.cst {
                lemma_all_mirror_index(g, Seq::new(ms.len(), |k: int| c), ms, ms.len(), i);
            }
        },
        _ => {},
    }
}

/// The node reached from the tree `m`, produced by the rule `kind`, through the children at the
/// indices of `path`, one level each: the rule that produced it and its tree; `None` where an
/// index is not that of a child.
pub open spec fn node_at<N, T>(g: Seq<(N, PegRule<N, T>)>, kind: N, m: PegMatch<N, T>, path: Seq<int>) -> Option<
    (N, PegMatch<N, T>),
>
    decreases path.len(),
{
    if path.len() == 0 {
        Some((kind, m))
    } else if 0 <= path[0] < green_children(m).len() {
        node_at(g, child_names(g, kind, m)[path[0]], green_children(m)[path[0]], path.drop_first())
    } else {
        None
    }
}

/// Every node reachable from a tree that mirrors its rule mirrors the rule through which it was
/// reached: the chosen option, the matching part of a sequence or the repeated rule, level by
/// level (see [`lemma_child_names`]). With [`SyntaxNode::new_root`] (the root's kind is the
/// start rule) and [`SyntaxNode::children`] (each child's kind and tree are the next step of
/// this walk), this holds of every node reached from a root through `children`.
pub proof fn lemma_reachable_nodes<N, T>(g: Seq<(N, PegRule<N, T>)>, kind: N, m: PegMatch<N, T>, path: Seq<int>)
    requires
        mirrors(g, kind, m),
    ensures
        node_at(g, kind, m, path) matches Some((k, t)) ==> mirrors(g, k, t),
    decreases path.len(),
{
    if path.len() > 0 && 0 <= path[0] < green_children(m).len() {
        lemma_child_names(g, kind, m, path[0]);
        lemma_reachable_nodes(g, child_names(g, kind, m)[path[0]], green_children(m)[path[0]], path.drop_first());
    }
}

/// Every entry of a traversal is a kept node, at `depth` or deeper.
pub open spec fn all_kept<N, T>(trivia: Seq<(N, TriviaClass)>, es: Seq<PreorderEntry<N, T>>, depth: int) -> bool {
    forall|i: int|
        0 <= i < es.len() ==> trivia_of(trivia, (#[trigger] es[i]).1, trivia.len() as int) == TriviaClass::Keep
            && es[i].0 >= depth
}

proof fn lemma_all_kept_concat<N, T>(
    trivia: Seq<(N, TriviaClass)>,
    a: Seq<PreorderEntry<N, T>>,
    b: Seq<PreorderEntry<N, T>>,
    depth: int,
)
    requires
        all_kept(trivia, a, depth),
        all_kept(trivia, b, depth),
    ensures
        all_kept(trivia, a + b, depth),
{
    assert forall|i: int| 0 <= i < (a + b).len() implies trivia_of(trivia, (#[trigger] (a + b)[i]).1, trivia.len() as int)
        == TriviaClass::Keep && (a + b)[i].0 >= depth by {
        if i < a.len() {
            assert((a + b)[i] == a[i]);
        } else {
            assert((a + b)[i] == b[i - a.len()]);
        }
    }
}

/// A traversal yields only kept nodes, none of them shallower than where it started: a node
/// skipped alone or with its children never appears.
pub proof fn lemma_preorder_kept<N, T>(
    g: Seq<(N, PegRule<N, T>)>,
    trivia: Seq<(N, TriviaClass)>,
    depth: int,
    kind: N,
    offset: int,
    m: PegMatch<N, T>,
)
    ensures
        all_kept(trivia, preorder_spec(g, trivia, depth, kind, offset, m), depth),
    decreases m, 1nat,
{
    match trivia_of(trivia, kind, trivia.len() as int) {
        TriviaClass::Keep => {
            lemma_preorder_below_kept(g, trivia, depth + 1, kind, offset, m);
            let head: Seq<PreorderEntry<N, T>> = seq![(depth, kind, offset, m)];
            assert(all_kept(trivia, head, depth));
            lemma_all_kept_concat(trivia, head, preorder_below(g, trivia, depth + 1, kind, offset, m), depth);
        },
        TriviaClass::SkipNodeOnly => {
            lemma_preorder_below_kept(g, trivia, depth, kind, offset, m);
        },
        TriviaClass::SkipNodeAndChildren => {},
    }
}

proof fn lemma_preorder_below_kept<N, T>(
    g: Seq<(N, PegRule<N, T>)>,
    trivia: Seq<(N, TriviaClass)>,
    depth: int,
    kind: N,
    offset: int,
    m: PegMatch<N, T>,
)
    ensures
        all_kept(trivia, preorder_below(g, trivia, depth, kind, offset, m), depth),
    decreases m, 0nat,
{
    match m.cst {
        PegCst::Choice(c, b) => lemma_preorder_kept(g, trivia, depth, c, offset, *b),
        PegCst::Sequence(ms) => lemma_preorder_list_kept(g, trivia, depth, child_names(g, kind, m), ms, offset, ms.len()),
        PegCst::Repetition(ms) => lemma_preorder_list_kept(g, trivia, depth, child_names(g, kind, m), ms, offset, ms.len()),
        _ => {},
    }
}

proof fn lemma_preorder_list_kept<N, T>(
    g: Seq<(N, PegRule<N, T>)>,
    trivia: Seq<(N, TriviaClass)>,
    depth: int,
    names: Seq<N>,
    ms: Seq<PegMatch<N, T>>,
    base: int,
    k: nat,
)
    ensures
        all_kept(trivia, preorder_list(g, trivia, depth, names, ms, base, k), depth),
    decreases ms, k,
{
    if !(k == 0 || k > ms.len()) {
        lemma_preorder_list_kept(g, trivia, depth, names, ms, base, (k - 1) as nat);
        lemma_preorder_kept(g, trivia, depth, names[k - 1], base + lens_sum(ms, k - 1), ms[k - 1]);
        lemma_all_kept_concat(
            trivia,
            preorder_list(g, trivia, depth, names, ms, base, (k - 1) as nat),
            preorder_spec(g, trivia, depth, names[k - 1], base + lens_sum(ms, k - 1), ms[k - 1]),
            depth,
        );
    }
}

/// A subtree is lower than its tree.
proof fn lemma_child_height<N, T>(m: PegMatch<N, T>, i: int)
    requires
        0 <= i < green_children(m).len(),
    ensures
        height(green_children(m)[i]) < height(m),
{
    match m.cst {
        PegCst::Sequence(ms) => lemma_max_height(ms, ms.len(), i),
        PegCst::Repetition(ms) => lemma_max_height(ms, ms.len(), i),
        _ => {},
    }
}

proof fn lemma_max_height<N, T>(ms: Seq<PegMatch<N, T>>, k: nat, i: int)
    requires
        0 <= i < k <= ms.len(),
    ensures
        height(ms[i]) <= max_height(ms, k),
    decreases k,
{
    if i < k - 1 {
        lemma_max_height(ms, (k - 1) as nat, i);
    }
}

/// The view of a traversal entry.
pub open spec fn entry_view<N: Symbol, T: Symbol, P: TokenPredicate<T>>(e: (u32, SyntaxNode<N, T, P>)) -> PreorderEntry<
    N::V,
    T::V,
> {
    (e.0 as int, e.1.spec_kind(), e.1.0.offset as int, e.1.tree())
}

/// The nodes of the syntax tree below `node`, `node` included, in preorder, each with its depth
/// counted from `depth` (see [`preorder_spec`]).
pub fn preorder<N: Symbol, T: Symbol, P: TokenPredicate<T>>(depth: u32, node: SyntaxNode<N, T, P>) -> (r: Vec<
    (u32, SyntaxNode<N, T, P>),
>)
    requires
        node.wf(),
        depth + height(node.tree()) <= u32::MAX,
    ensures
        r@.map_values(|e: (u32, SyntaxNode<N, T, P>)| entry_view(e)) == preorder_spec(
            node.0.grammar.grammar(),
            node.0.grammar.trivia(),
            depth as int,
            node.spec_kind(),
            node.0.offset as int,
            node.tree(),
        ),
        forall|i: int| 0 <= i < r@.len() ==> (#[trigger] r@[i]).1.wf(),
        forall|i: int|
            0 <= i < r@.len() ==> trivia_of(
                node.0.grammar.trivia(),
                (#[trigger] r@[i]).1.spec_kind(),
                node.0.grammar.trivia().len() as int,
            ) == TriviaClass::Keep && r@[i].0 >= depth,
{
    let r = preorder_entries(depth, node);
    proof {
        let g = r@.map_values(|e: (u32, SyntaxNode<N, T, P>)| entry_view(e));
        lemma_preorder_kept(
            node.0.grammar.grammar(),
            node.0.grammar.trivia(),
            depth as int,
            node.spec_kind(),
            node.0.offset as int,
            node.tree(),
        );
        assert forall|i: int| 0 <= i < r@.len() implies trivia_of(
            node.0.grammar.trivia(),
            (#[trigger] r@[i]).1.spec_kind(),
            node.0.grammar.trivia().len() as int,
        ) == TriviaClass::Keep && r@[i].0 >= depth by {
            assert(g[i] == entry_view(r@[i]));
        }
    }
    r
}

/// The traversal of [`preorder`].
fn preorder_entries<N: Symbol, T: Symbol, P: TokenPredicate<T>>(depth: u32, node: SyntaxNode<N, T, P>) -> (r: Vec<
    (u32, SyntaxNode<N, T, P>),
>)
    requires
        node.wf(),
        depth + height(node.tree()) <= u32::MAX,
    ensures
        r@.map_values(|e: (u32, SyntaxNode<N, T, P>)| entry_view(e)) == preorder_spec(
            node.0.grammar.grammar(),
            node.0.grammar.trivia(),
            depth as int,
            node.spec_kind(),
            node.0.offset as int,
            node.tree(),
        ),
        forall|i: int| 0 <= i < r@.len() ==> (#[trigger] r@[i]).1.wf(),
    decreases node.tree(), 1nat,
{
    match node.trivia_class() {
        TriviaClass::Keep => {
            let mut r = vec![(depth, node.share())];
            let mut below = preorder_children(depth + 1, &node);
            let ghost r0 = r@;
            let ghost b0 = below@;
            r.append(&mut below);
            proof {
                assert(r0.map_values(|e: (u32, SyntaxNode<N, T, P>)| entry_view(e)) =~= seq![
                    (depth as int, node.spec_kind(), node.0.offset as int, node.tree()),
                ]);
                assert((r0 + b0).map_values(|e: (u32, SyntaxNode<N, T, P>)| entry_view(e)) =~= r0.map_values(
                    |e: (u32, SyntaxNode<N, T, P>)| entry_view(e),
                ) + b0.map_values(|e: (u32, SyntaxNode<N, T, P>)| entry_view(e)));
            }
            r
        },
        TriviaClass::SkipNodeOnly => preorder_children(depth, &node),
        TriviaClass::SkipNodeAndChildren => {
            let r: Vec<(u32, SyntaxNode<N, T, P>)> = Vec::new();
            assert(r@.map_values(|e: (u32, SyntaxNode<N, T, P>)| entry_view(e)) =~= Seq::empty());
            r
        },
    }
}

/// The traversals of the children of `node`, one after the other, at `depth`.
fn preorder_children<N: Symbol, T: Symbol, P: TokenPredicate<T>>(depth: u32, node: &SyntaxNode<N, T, P>) -> (r: Vec<
    (u32, SyntaxNode<N, T, P>),
>)
    requires
        node.wf(),
        depth + height(node.tree()) <= u32::MAX + 1,
    ensures
        r@.map_values(|e: (u32, SyntaxNode<N, T, P>)| entry_view(e)) == preorder_below(
            node.0.grammar.grammar(),
            node.0.grammar.trivia(),
            depth as int,
            node.spec_kind(),
            node.0.offset as int,
            node.tree(),
        ),
        forall|i: int| 0 <= i < r@.len() ==> (#[trigger] r@[i]).1.wf(),
    decreases node.tree(), 0nat,
{
    let ghost g = node.0.grammar.grammar();
    let ghost tv = node.0.grammar.trivia();
    let ghost m = node.tree();
    let children = node.children();
    let mut r: Vec<(u32, SyntaxNode<N, T, P>)> = Vec::new();
    let mut i: usize = 0;
    while i < children.len()
        invariant
            i <= children.len(),
            node.wf(),
            depth + height(node.tree()) <= u32::MAX + 1,
            g == node.0.grammar.grammar(),
            tv == node.0.grammar.trivia(),
            m == node.tree(),
            children@.len() == green_children(m).len(),
            forall|j: int|
                0 <= j < children@.len() ==> {
                    let c = #[trigger] children@[j];
                    &&& c.0.grammar == node.0.grammar
                    &&& c.0.offset == node.0.offset + offset_in(m, j)
                    &&& c.tree() == green_children(m)[j]
                    &&& c.spec_kind() == child_names(g, node.spec_kind(), m)[j]
                    &&& c.wf()
                },
            r@.map_values(|e: (u32, SyntaxNode<N, T, P>)| entry_view(e)) == preorder_below_prefix(
                g,
                tv,
                depth as int,
                node.spec_kind(),
                node.0.offset as int,
                m,
                i as nat,
            ),
            forall|j: int| 0 <= j < r@.len() ==> (#[trigger] r@[j]).1.wf(),
        decreases children.len() - i,
    {
        let c = children[i].share();
        proof {
            lemma_child_height(m, i as int);
            match m.cst {
                PegCst::Choice(_, b) => {
                    assert(decreases_to!(m => *b));
                },
                PegCst::Sequence(ms) => {
                    assert(decreases_to!(m => ms[i as int]));
                },
                PegCst::Repetition(ms) => {
                    assert(decreases_to!(m => ms[i as int]));
                },
                _ => {},
            }
        }
        let mut sub = preorder_entries(depth, c);
        let ghost r0 = r@;
        let ghost s0 = sub@;
        r.append(&mut sub);
        proof {
            assert((r0 + s0).map_values(|e: (u32, SyntaxNode<N, T, P>)| entry_view(e)) =~= r0.map_values(
                |e: (u32, SyntaxNode<N, T, P>)| entry_view(e),
            ) + s0.map_values(|e: (u32, SyntaxNode<N, T, P>)| entry_view(e)));
            match m.cst {
                PegCst::Choice(_, b) => {
                    assert(r0.len() == 0);
                    assert(r0.map_values(|e: (u32, SyntaxNode<N, T, P>)| entry_view(e)) =~= Seq::empty());
                },
                _ => {},
            }
            assert forall|j: int| 0 <= j < r@.len() implies (#[trigger] r@[j]).1.wf() by {
                if j >= r0.len() {
                    assert(r@[j] == s0[j - r0.len()]);
                }
            }
        }
        i = i + 1;
    }
    proof {
        match m.cst {
            PegCst::Choice(_, b) => {},
            PegCst::Sequence(ms) => {},
            PegCst::Repetition(ms) => {},
            _ => {
                assert(r@.map_values(|e: (u32, SyntaxNode<N, T, P>)| entry_view(e)) =~= Seq::empty());
            },
        }
    }
    r
}

// ---------------------------------------------------------------------------------------------
// Typed views of syntax nodes
// ---------------------------------------------------------------------------------------------

/// A typed view of the syntax nodes of one kind.
pub trait AstNode<N: Symbol, T: Symbol, P: TokenPredicate<T>>: Sized {
    /// The syntax node behind this view.
    spec fn spec_syntax(&self) -> SyntaxNode<N, T, P>;

    /// Whether `node` can be viewed as this type.
    fn can_cast(node: &SyntaxNode<N, T, P>) -> bool;

    /// `node` viewed as this type, when it can be.
    fn cast(node: SyntaxNode<N, T, P>) -> (r: Option<Self>)
        ensures
            r matches Some(a) ==> a.spec_syntax() == node,
    ;

    /// The backing syntax node.
    fn syntax(&self) -> (r: &SyntaxNode<N, T, P>)
        ensures
            *r == self.spec_syntax(),
    ;

    /// The offset in tokens at which the node starts.
    fn offset(&self) -> (r: usize)
        ensures
            r == self.spec_syntax().0.offset,
    {
        self.syntax().0.offset
    }

    /// The node's span in the token stream.
    fn span(&self) -> (r: std::ops::Range<usize>)
        requires
            self.spec_syntax().0.offset + self.spec_syntax().tree().len <= usize::MAX,
        ensures
            r.start == self.spec_syntax().0.offset,
            r.end == self.spec_syntax().0.offset + self.spec_syntax().tree().len,
    {
        let start = self.offset();
        let end = start + self.syntax().length();
        start..end
    }

    /// The node's span in the source text, in bytes, given the cumulative sum of the token
    /// lengths: from the end of the token before the node to the end of its last token.
    fn text_span(&self, cumulative_sum: &[usize]) -> (r: std::ops::Range<usize>)
        requires
            self.spec_syntax().0.offset + self.spec_syntax().tree().len <= usize::MAX,
            ({
                let end = self.spec_syntax().0.offset + self.spec_syntax().tree().len;
                let last = if end == 0 {
                    0
                } else {
                    end - 1
                };
                last < cumulative_sum@.len()
            }),
        ensures
            ({
                let start = self.spec_syntax().0.offset;
                let end = self.spec_syntax().0.offset + self.spec_syntax().tree().len;
                let last = if end == 0 {
                    0
                } else {
                    end - 1
                };
                &&& r.end == cumulative_sum@[last]
                &&& r.start == if start == 0 {
                    0
                } else {
                    cumulative_sum@[start - 1]
                }
            }),
    {
        let span = self.span();
        let last = if span.end == 0 {
            0
        } else {
            span.end - 1
        };
        if span.start == 0 {
            0..cumulative_sum[last]
        } else {
            cumulative_sum[span.start - 1]..cumulative_sum[last]
        }
    }
}

/// The direction of a parameter.
#[derive(Clone, Copy, Debug, PartialEq, Eq, Structural)]
pub enum DirectionTag {
    In,
    Out,
    InOut,
}

impl DirectionTag {
    /// The keyword of the direction.
    pub fn to_string(&self) -> (r: String)
        ensures
            *self == DirectionTag::In ==> r@ == "in"@,
            *self == DirectionTag::Out ==> r@ == "out"@,
            *self == DirectionTag::InOut ==> r@ == "inout"@,
    {
        match self {
            DirectionTag::In => String::from_str("in"),
            DirectionTag::Out => String::from_str("out"),
            DirectionTag::InOut => String::from_str("inout"),
        }
    }
}

/// The node of a `direction` rule, a choice between the rules `dir_in`, `dir_out` and
/// `dir_inout`.
pub struct Direction<T, P> {
    syntax: SyntaxNode<&'static str, T, P>,
    pub variant: DirectionTag,
}

/// The direction that the chosen rule `name` stands for.
pub open spec fn direction_of(name: Seq<char>) -> Option<DirectionTag> {
    if name == "dir_in"@ {
        Some(DirectionTag::In)
    } else if name == "dir_out"@ {
        Some(DirectionTag::Out)
    } else if name == "dir_inout"@ {
        Some(DirectionTag::InOut)
    } else {
        None
    }
}

impl<T, P> Direction<T, P> {
    /// The direction of the node.
    pub closed spec fn spec_variant(&self) -> DirectionTag {
        self.variant
    }
}

impl<T: Symbol, P: TokenPredicate<T>> AstNode<&'static str, T, P> for Direction<T, P> {
    closed spec fn spec_syntax(&self) -> SyntaxNode<&'static str, T, P> {
        self.syntax
    }

    fn can_cast(node: &SyntaxNode<&'static str, T, P>) -> (r: bool)
        ensures
            r == (node.spec_kind() == "direction"@),
    {
        let k = node.kind();
        crate::text::same_text(k, "direction")
    }

    /// A `direction` node whose tree chose one of the direction rules.
    fn cast(node: SyntaxNode<&'static str, T, P>) -> (r: Option<Self>)
        ensures
            r is Some <==> node.spec_kind() == "direction"@ && (node.tree().cst matches PegCst::Choice(
                c,
                _,
            ) && direction_of(c) is Some),
            r matches Some(d) ==> (node.tree().cst matches PegCst::Choice(c, _) && direction_of(c)
                == Some(d.spec_variant())),
    {
        if !Self::can_cast(&node) {
            return None;
        }
        let variant = match &node.0.node.0.cst {
            Cst::Choice(chosen, _) => {
                if crate::text::same_text(*chosen, "dir_in") {
                    DirectionTag::In
                } else if crate::text::same_text(*chosen, "dir_out") {
                    DirectionTag::Out
                } else if crate::text::same_text(*chosen, "dir_inout") {
                    DirectionTag::InOut
                } else {
                    return None;
                }
            },
            _ => {
                return None;
            },
        };
        Some(Direction { syntax: node, variant })
    }

    fn syntax(&self) -> (r: &SyntaxNode<&'static str, T, P>) {
        &self.syntax
    }
}

/// Classes of P4 tokens that terminal rules match one token at a time.
pub enum TokenClass {
    /// Any identifier.
    Identifier,
    /// The identifier with exactly this text.
    IdentifierNamed(String),
    /// Any integer literal.
    Integer,
}

impl TokenPredicate<Token> for TokenClass {
    open spec fn accepts(&self, t: SpecToken) -> bool {
        match self {
            TokenClass::Identifier => t is Identifier,
            TokenClass::IdentifierNamed(name) => t matches SpecToken::Identifier(i) && i == name@,
            TokenClass::Integer => t is Integer,
        }
    }

    fn test(&self, t: &Token) -> (r: bool) {
        match (self, t) {
            (TokenClass::Identifier, Token::Identifier(_)) => true,
            (TokenClass::IdentifierNamed(name), Token::Identifier(i)) => crate::text::same_text(
                i.as_str(),
                name.as_str(),
            ),
            (TokenClass::Integer, Token::Integer(_)) => true,
            _ => false,
        }
    }

    fn duplicate(&self) -> (r: Self) {
        match self {
            TokenClass::Identifier => TokenClass::Identifier,
            TokenClass::IdentifierNamed(name) => TokenClass::IdentifierNamed(name.clone()),
            TokenClass::Integer => TokenClass::Integer,
        }
    }
}

/// The text of a tree that is one identifier token.
pub open spec fn single_identifier<N>(c: PegCst<N, SpecToken>) -> Option<Seq<char>> {
    match c {
        PegCst::Terminal(ts) => if ts.len() == 1 {
            match ts[0] {
                SpecToken::Identifier(s) => Some(s),
                _ => None,
            }
        } else {
            None
        },
        _ => None,
    }
}

/// The node of an `ident` rule: a single identifier token.
pub struct Ident<P: TokenPredicate<Token>> {
    syntax: SyntaxNode<&'static str, Token, P>,
}

impl<P: TokenPredicate<Token>> Ident<P> {
    #[verifier::type_invariant]
    closed spec fn holds_one_identifier(&self) -> bool {
        single_identifier(self.syntax.tree().cst) is Some
    }

    /// The identifier's text.
    pub fn as_str(&self) -> (r: &str)
        ensures
            Some(r@) == single_identifier(self.spec_syntax().tree().cst),
    {
        proof {
            use_type_invariant(self);
        }
        match &self.syntax.0.node.0.cst {
            Cst::Terminal(tokens) => {
                let v: &Vec<Token> = &**tokens;
                assert(symbols_view(v@)[0] == v@[0]@);
                match &v[0] {
                    Token::Identifier(s) => s.as_str(),
                    _ => {
                        assert(false);
                        ""
                    },
                }
            },
            _ => {
                assert(false);
                ""
            },
        }
    }
}

impl<P: TokenPredicate<Token>> AstNode<&'static str, Token, P> for Ident<P> {
    closed spec fn spec_syntax(&self) -> SyntaxNode<&'static str, Token, P> {
        self.syntax
    }

    fn can_cast(node: &SyntaxNode<&'static str, Token, P>) -> (r: bool)
        ensures
            r == (node.spec_kind() == "ident"@),
    {
        let k = node.kind();
        crate::text::same_text(k, "ident")
    }

    /// An `ident` node whose tree is one identifier token.
    fn cast(node: SyntaxNode<&'static str, Token, P>) -> (r: Option<Self>)
        ensures
            r is Some <==> node.spec_kind() == "ident"@ && single_identifier(node.tree().cst) is Some,
    {
        if !Self::can_cast(&node) {
            return None;
        }
        let ok = match &node.0.node.0.cst {
            Cst::Terminal(tokens) => {
                let v: &Vec<Token> = &**tokens;
                if v.len() == 1 {
                    assert(symbols_view(v@)[0] == v@[0]@);
                    match &v[0] {
                        Token::Identifier(_) => true,
                        _ => false,
                    }
                } else {
                    false
                }
            },
            _ => false,
        };
        if ok {
            Some(Ident { syntax: node })
        } else {
            None
        }
    }

    fn syntax(&self) -> (r: &SyntaxNode<&'static str, Token, P>) {
        &self.syntax
    }
}

} // verus!
