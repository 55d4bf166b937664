use vstd::prelude::*;
use crate::lexer::{
    close_ident, is_ident_byte_exec, is_space_exec, lemma_lex_ordered, lemma_lex_prefix_ordered,
    lemma_lex_prefix_local, lex_prefix, lex_spec, single_kind_exec, tokens_ordered, Token,
    TokenKind,
};
use crate::tree::{all_nodes_wf, lemma_push_keeps_wf, leaf, node_wf, nodes_view, NodeView, Symbol, SyntaxNode, Tree, TreeView};

verus! {

/// Where the parser stands in `block := '{' stmt* '}'`.
#[derive(Clone, Copy, PartialEq, Eq, Structural, Debug)]
pub enum Mode {
    /// Before the opening brace.
    Open,
    /// Inside the block.
    Body,
    /// After the closing brace.
    Closed,
}

/// The parser's state between two tokens: the nodes built so far, the
/// children of the block found so far, the mode, and an identifier that
/// waits for its `;`.
pub struct ParseState {
    pub nodes: Seq<NodeView>,
    pub top: Seq<usize>,
    pub mode: Mode,
    pub pending: Option<Token>,
}

pub open spec fn initial_state() -> ParseState {
    ParseState { nodes: Seq::empty(), top: Seq::empty(), mode: Mode::Open, pending: None }
}

/// Appends `n` as a new child of the block.
pub open spec fn add_top(s: ParseState, n: NodeView) -> ParseState {
    ParseState { nodes: s.nodes.push(n), top: s.top.push(s.nodes.len() as usize), ..s }
}

/// Appends the statement `id ;` as a new child of the block.
pub open spec fn add_stmt(s: ParseState, id: Token, semi: Token) -> ParseState {
    let a = s.nodes.len();
    ParseState {
        nodes: s.nodes.push(leaf(Symbol::Ident, id.start, id.end)).push(
            leaf(Symbol::Semi, semi.start, semi.end),
        ).push(
            NodeView {
                symbol: Symbol::Stmt,
                start: id.start,
                end: semi.end,
                children: seq![a as usize, (a + 1) as usize],
            },
        ),
        top: s.top.push((a + 2) as usize),
        pending: None,
        ..s
    }
}

/// Appends an error node that holds the identifier `id`, which no `;` followed.
pub open spec fn add_error_ident(s: ParseState, id: Token) -> ParseState {
    let a = s.nodes.len();
    ParseState {
        nodes: s.nodes.push(leaf(Symbol::Ident, id.start, id.end)).push(
            NodeView { symbol: Symbol::Error, start: id.start, end: id.end, children: seq![a as usize] },
        ),
        top: s.top.push((a + 1) as usize),
        pending: None,
        ..s
    }
}

/// A token inside the block with no identifier waiting.
pub open spec fn body_token(s: ParseState, tok: Token) -> ParseState {
    if tok.kind == TokenKind::Ident {
        ParseState { pending: Some(tok), ..s }
    } else if tok.kind == TokenKind::RBrace {
        ParseState { mode: Mode::Closed, ..add_top(s, leaf(Symbol::RBrace, tok.start, tok.end)) }
    } else {
        add_top(s, leaf(Symbol::Error, tok.start, tok.end))
    }
}

/// One shift of the parser.
pub open spec fn step(s: ParseState, tok: Token) -> ParseState {
    match s.mode {
        Mode::Open => if tok.kind == TokenKind::LBrace {
            ParseState { mode: Mode::Body, ..add_top(s, leaf(Symbol::LBrace, tok.start, tok.end)) }
        } else {
            add_top(s, leaf(Symbol::Error, tok.start, tok.end))
        },
        Mode::Body => match s.pending {
            None => body_token(s, tok),
            Some(id) => if tok.kind == TokenKind::Semi {
                add_stmt(s, id, tok)
            } else {
                body_token(add_error_ident(s, id), tok)
            },
        },
        Mode::Closed => add_top(s, leaf(Symbol::Error, tok.start, tok.end)),
    }
}

/// The state after the first `n` tokens.
pub open spec fn parse_prefix(toks: Seq<Token>, n: nat) -> ParseState
    decreases n,
{
    if n == 0 || n > toks.len() {
        initial_state()
    } else {
        step(parse_prefix(toks, (n - 1) as nat), toks[n - 1])
    }
}

/// Ends the parse of a text of `len` bytes: a waiting identifier becomes an
/// error, an absent `}` becomes a missing node, and the block spans the text.
pub open spec fn finish(s: ParseState, len: nat) -> TreeView {
    let s1 = match s.pending {
        Some(id) => add_error_ident(s, id),
        None => s,
    };
    let s2 = if s1.mode == Mode::Closed {
        s1
    } else {
        add_top(s1, leaf(Symbol::Missing, len as usize, len as usize))
    };
    TreeView {
        nodes: s2.nodes.push(
            NodeView { symbol: Symbol::Block, start: 0, end: len as usize, children: s2.top },
        ),
        root: s2.nodes.len() as usize,
    }
}

/// The syntax tree of `text`.
pub open spec fn parse_spec(text: Seq<u8>) -> TreeView {
    let toks = lex_spec(text);
    finish(parse_prefix(toks, toks.len()), text.len())
}

pub(crate) struct Builder {
    nodes: Vec<SyntaxNode>,
    top: Vec<usize>,
    mode: Mode,
    pending: Option<Token>,
}

impl View for Builder {
    type V = ParseState;

    closed spec fn view(&self) -> ParseState {
        ParseState {
            nodes: nodes_view(self.nodes@),
            top: self.top@,
            mode: self.mode,
            pending: self.pending,
        }
    }
}

impl Builder {
    fn push_node(&mut self, symbol: Symbol, start: usize, end: usize, children: Vec<usize>) -> (r:
        usize)
        requires
            old(self)@.nodes.len() < usize::MAX,
        ensures
            r == old(self)@.nodes.len(),
            final(self)@ == (ParseState {
                nodes: old(self)@.nodes.push(
                    NodeView { symbol, start, end, children: children@ },
                ),
                ..old(self)@
            }),
    {
        let r = self.nodes.len();
        self.nodes.push(SyntaxNode { symbol, start, end, children });
        assert(nodes_view(self.nodes@) =~= old(self)@.nodes.push(
            NodeView { symbol, start, end, children: children@ },
        ));
        r
    }

    fn add_top(&mut self, symbol: Symbol, start: usize, end: usize)
        requires
            old(self)@.nodes.len() < usize::MAX,
        ensures
            final(self)@ == add_top(old(self)@, leaf(symbol, start, end)),
    {
        let ch: Vec<usize> = Vec::new();
        assert(ch@ =~= Seq::<usize>::empty());
        let a = self.push_node(symbol, start, end, ch);
        self.top.push(a);
    }

    fn add_stmt(&mut self, id: Token, semi: Token)
        requires
            old(self)@.nodes.len() + 3 < usize::MAX,
        ensures
            final(self)@ == add_stmt(old(self)@, id, semi),
    {
        let e1: Vec<usize> = Vec::new();
        let e2: Vec<usize> = Vec::new();
        assert(e1@ =~= Seq::<usize>::empty() && e2@ =~= Seq::<usize>::empty());
        let a = self.push_node(Symbol::Ident, id.start, id.end, e1);
        let b = self.push_node(Symbol::Semi, semi.start, semi.end, e2);
        let mut ch: Vec<usize> = Vec::new();
        ch.push(a);
        ch.push(b);
        let c = self.push_node(Symbol::Stmt, id.start, semi.end, ch);
        self.top.push(c);
        self.pending = None;
        assert(ch@ =~= seq![a, b]);
        assert(self@.nodes =~= add_stmt(old(self)@, id, semi).nodes);
    }

    fn add_error_ident(&mut self, id: Token)
        requires
            old(self)@.nodes.len() + 2 < usize::MAX,
        ensures
            final(self)@ == add_error_ident(old(self)@, id),
    {
        let e1: Vec<usize> = Vec::new();
        assert(e1@ =~= Seq::<usize>::empty());
        let a = self.push_node(Symbol::Ident, id.start, id.end, e1);
        let mut ch: Vec<usize> = Vec::new();
        ch.push(a);
        let c = self.push_node(Symbol::Error, id.start, id.end, ch);
        self.top.push(c);
        self.pending = None;
        assert(ch@ =~= seq![a]);
        assert(self@.nodes =~= add_error_ident(old(self)@, id).nodes);
    }

    fn body_token(&mut self, tok: Token)
        requires
            old(self)@.nodes.len() + 1 < usize::MAX,
        ensures
            final(self)@ == body_token(old(self)@, tok),
    {
        match tok.kind {
            TokenKind::Ident => {
                self.pending = Some(tok);
            },
            TokenKind::RBrace => {
                self.add_top(Symbol::RBrace, tok.start, tok.end);
                self.mode = Mode::Closed;
            },
            _ => {
                self.add_top(Symbol::Error, tok.start, tok.end);
            },
        }
    }

    /// A parser inside the block, holding `nodes` and the block children `top`.
    pub(crate) fn resume(nodes: Vec<SyntaxNode>, top: Vec<usize>) -> (r: Builder)
        ensures
            r@ == (ParseState {
                nodes: nodes_view(nodes@),
                top: top@,
                mode: Mode::Body,
                pending: None,
            }),
    {
        Builder { nodes, top, mode: Mode::Body, pending: None }
    }

    /// A parser before any input.
    pub(crate) fn start() -> (r: Builder)
        ensures
            r@ == initial_state(),
    {
        let r = Builder { nodes: Vec::new(), top: Vec::new(), mode: Mode::Open, pending: None };
        assert(r@.nodes =~= Seq::<NodeView>::empty());
        r
    }

    fn step(&mut self, tok: Token)
        requires
            old(self)@.nodes.len() + 4 < usize::MAX,
        ensures
            final(self)@ == step(old(self)@, tok),
    {
        match self.mode {
            Mode::Open => {
                if tok.kind == TokenKind::LBrace {
                    self.add_top(Symbol::LBrace, tok.start, tok.end);
                    self.mode = Mode::Body;
                } else {
                    self.add_top(Symbol::Error, tok.start, tok.end);
                }
            },
            Mode::Body => {
                match self.pending {
                    None => self.body_token(tok),
                    Some(id) => {
                        if tok.kind == TokenKind::Semi {
                            self.add_stmt(id, tok);
                        } else {
                            self.add_error_ident(id);
                            self.body_token(tok);
                        }
                    },
                }
            },
            Mode::Closed => {
                self.add_top(Symbol::Error, tok.start, tok.end);
            },
        }
    }
}

/// Parses `text` from scratch. The parse never fails: input that does not
/// fit the grammar shows up as error and missing nodes.
pub fn parse(text: &Vec<u8>) -> (r: Tree)
    requires
        text@.len() < usize::MAX / 4,
    ensures
        r@ == parse_spec(text@),
        r@.wf(),
        r@.nodes[r@.root as int].start == 0,
        r@.nodes[r@.root as int].end == text@.len(),
{
    let (tree, _cps) = parse_with_checkpoints(text);
    tree
}

/// Parsing is a function of the text alone: two parses of one text give
/// the same tree, node for node.
pub proof fn lemma_parse_deterministic(t1: Seq<u8>, t2: Seq<u8>)
    requires
        t1 == t2,
    ensures
        parse_spec(t1) == parse_spec(t2),
{
}

/// The nodes built, counting a waiting identifier as one.
spec fn size(s: ParseState) -> int {
    s.nodes.len() + if s.pending is Some {
        1int
    } else {
        0
    }
}

proof fn lemma_step_size(s: ParseState, tok: Token)
    requires
        s.mode != Mode::Body ==> s.pending is None,
    ensures
        size(step(s, tok)) <= size(s) + 2,
        step(s, tok).mode != Mode::Body ==> step(s, tok).pending is None,
{
}

/// Where the finished part of the state ends: a waiting identifier's start,
/// else `lim`.
spec fn front(s: ParseState, lim: nat) -> nat {
    match s.pending {
        Some(p) => p.start as nat,
        None => lim,
    }
}

/// The invariant of the parser after reading up to byte `lim`.
spec fn state_ok(s: ParseState, lim: nat) -> bool {
    &&& all_nodes_wf(s.nodes)
    &&& forall|i: int| 0 <= i < s.nodes.len() ==> (#[trigger] s.nodes[i]).end <= front(s, lim)
    &&& forall|k: int| 0 <= k < s.top.len() ==> (#[trigger] s.top[k]) < s.nodes.len()
    &&& forall|j: int, k: int|
        0 <= j < k < s.top.len() ==> s.nodes[(#[trigger] s.top[j]) as int].end <= s.nodes[(
        #[trigger] s.top[k]) as int].start
    &&& s.pending matches Some(p) ==> p.start < p.end <= lim
    &&& s.mode != Mode::Body ==> s.pending is None
}

proof fn lemma_add_top_ok(s: ParseState, n: NodeView, lim: nat, lim2: nat)
    requires
        state_ok(s, lim),
        s.pending is None,
        lim <= n.start <= n.end <= lim2,
        n.children.len() == 0,
        s.nodes.len() < usize::MAX,
    ensures
        state_ok(add_top(s, n), lim2),
{
    let r = add_top(s, n);
    lemma_push_keeps_wf(s.nodes, n);
    assert(node_wf(r.nodes, s.nodes.len() as int));
    assert forall|k: int| 0 <= k < r.top.len() implies (#[trigger] r.top[k]) < r.nodes.len() by {
        if k < s.top.len() {
            assert(r.top[k] == s.top[k]);
        }
    }
    assert forall|j: int, k: int| 0 <= j < k < r.top.len() implies r.nodes[(
    #[trigger] r.top[j]) as int].end <= r.nodes[(#[trigger] r.top[k]) as int].start by {
        assert(r.top[j] == s.top[j]);
        assert(s.top[j] < s.nodes.len());
        assert(r.nodes[s.top[j] as int] == s.nodes[s.top[j] as int]);
        if k < s.top.len() {
            assert(r.top[k] == s.top[k]);
            assert(s.top[k] < s.nodes.len());
        }
    }
    assert forall|i: int| 0 <= i < r.nodes.len() implies (#[trigger] r.nodes[i]).end <= front(
        r,
        lim2,
    ) by {
        if i < s.nodes.len() {
            assert(r.nodes[i] == s.nodes[i]);
        }
    }
}

proof fn lemma_add_error_ident_ok(s: ParseState, id: Token, lim: nat)
    requires
        state_ok(s, lim),
        s.pending == Some(id),
        s.nodes.len() + 2 < usize::MAX,
    ensures
        state_ok(add_error_ident(s, id), lim),
        add_error_ident(s, id).nodes.len() == s.nodes.len() + 2,
{
    let a = s.nodes.len();
    let l = leaf(Symbol::Ident, id.start, id.end);
    let n1 = s.nodes.push(l);
    let e = NodeView { symbol: Symbol::Error, start: id.start, end: id.end, children: seq![a as usize] };
    let r = add_error_ident(s, id);
    lemma_push_keeps_wf(s.nodes, l);
    assert(node_wf(n1, a as int));
    assert(all_nodes_wf(n1));
    lemma_push_keeps_wf(n1, e);
    assert(r.nodes[a as int] == l);
    assert(node_wf(r.nodes, a + 1int));
    assert(all_nodes_wf(r.nodes));
    assert forall|k: int| 0 <= k < r.top.len() implies (#[trigger] r.top[k]) < r.nodes.len() by {
        if k < s.top.len() {
            assert(r.top[k] == s.top[k]);
        }
    }
    assert forall|j: int, k: int| 0 <= j < k < r.top.len() implies r.nodes[(
    #[trigger] r.top[j]) as int].end <= r.nodes[(#[trigger] r.top[k]) as int].start by {
        assert(r.top[j] == s.top[j]);
        assert(s.top[j] < s.nodes.len());
        assert(r.nodes[s.top[j] as int] == s.nodes[s.top[j] as int]);
        if k < s.top.len() {
            assert(r.top[k] == s.top[k]);
            assert(s.top[k] < s.nodes.len());
        }
    }
    assert forall|i: int| 0 <= i < r.nodes.len() implies (#[trigger] r.nodes[i]).end <= front(
        r,
        lim,
    ) by {
        if i < s.nodes.len() {
            assert(r.nodes[i] == s.nodes[i]);
        }
    }
}

proof fn lemma_add_stmt_ok(s: ParseState, id: Token, semi: Token, lim: nat, lim2: nat)
    requires
        state_ok(s, lim),
        s.pending == Some(id),
        lim <= semi.start < semi.end <= lim2,
        s.nodes.len() + 3 < usize::MAX,
    ensures
        state_ok(add_stmt(s, id, semi), lim2),
{
    let a = s.nodes.len();
    let l1 = leaf(Symbol::Ident, id.start, id.end);
    let l2 = leaf(Symbol::Semi, semi.start, semi.end);
    let n1 = s.nodes.push(l1);
    let n2 = n1.push(l2);
    let st = NodeView {
        symbol: Symbol::Stmt,
        start: id.start,
        end: semi.end,
        children: seq![a as usize, (a + 1) as usize],
    };
    let r = add_stmt(s, id, semi);
    lemma_push_keeps_wf(s.nodes, l1);
    assert(node_wf(n1, a as int));
    assert(all_nodes_wf(n1));
    lemma_push_keeps_wf(n1, l2);
    assert(node_wf(n2, a + 1int));
    assert(all_nodes_wf(n2));
    lemma_push_keeps_wf(n2, st);
    assert(r.nodes[a as int] == l1);
    assert(r.nodes[a + 1int] == l2);
    assert(node_wf(r.nodes, a + 2int));
    assert(all_nodes_wf(r.nodes));
    assert forall|k: int| 0 <= k < r.top.len() implies (#[trigger] r.top[k]) < r.nodes.len() by {
        if k < s.top.len() {
            assert(r.top[k] == s.top[k]);
        }
    }
    assert forall|j: int, k: int| 0 <= j < k < r.top.len() implies r.nodes[(
    #[trigger] r.top[j]) as int].end <= r.nodes[(#[trigger] r.top[k]) as int].start by {
        assert(r.top[j] == s.top[j]);
        assert(s.top[j] < s.nodes.len());
        assert(r.nodes[s.top[j] as int] == s.nodes[s.top[j] as int]);
        if k < s.top.len() {
            assert(r.top[k] == s.top[k]);
            assert(s.top[k] < s.nodes.len());
        }
    }
    assert forall|i: int| 0 <= i < r.nodes.len() implies (#[trigger] r.nodes[i]).end <= front(
        r,
        lim2,
    ) by {
        if i < s.nodes.len() {
            assert(r.nodes[i] == s.nodes[i]);
        }
    }
}

proof fn lemma_body_token_ok(s: ParseState, tok: Token, lim: nat, lim2: nat)
    requires
        state_ok(s, lim),
        s.pending is None,
        s.mode == Mode::Body,
        lim <= tok.start < tok.end <= lim2,
        s.nodes.len() < usize::MAX,
    ensures
        state_ok(body_token(s, tok), lim2),
{
    if tok.kind == TokenKind::Ident {
        let r = body_token(s, tok);
        assert forall|i: int| 0 <= i < r.nodes.len() implies (#[trigger] r.nodes[i]).end <= front(
            r,
            lim2,
        ) by {
            assert(r.nodes[i] == s.nodes[i]);
        }
    } else if tok.kind == TokenKind::RBrace {
        lemma_add_top_ok(s, leaf(Symbol::RBrace, tok.start, tok.end), lim, lim2);
    } else {
        lemma_add_top_ok(s, leaf(Symbol::Error, tok.start, tok.end), lim, lim2);
    }
}

proof fn lemma_step_ok(s: ParseState, tok: Token, lim: nat, lim2: nat)
    requires
        state_ok(s, lim),
        lim <= tok.start < tok.end <= lim2,
        s.nodes.len() + 4 < usize::MAX,
    ensures
        state_ok(step(s, tok), lim2),
{
    match s.mode {
        Mode::Open => {
            if tok.kind == TokenKind::LBrace {
                lemma_add_top_ok(s, leaf(Symbol::LBrace, tok.start, tok.end), lim, lim2);
            } else {
                lemma_add_top_ok(s, leaf(Symbol::Error, tok.start, tok.end), lim, lim2);
            }
        },
        Mode::Body => {
            match s.pending {
                None => lemma_body_token_ok(s, tok, lim, lim2),
                Some(id) => {
                    if tok.kind == TokenKind::Semi {
                        lemma_add_stmt_ok(s, id, tok, lim, lim2);
                    } else {
                        lemma_add_error_ident_ok(s, id, lim);
                        lemma_body_token_ok(add_error_ident(s, id), tok, lim, lim2);
                    }
                },
            }
        },
        Mode::Closed => {
            lemma_add_top_ok(s, leaf(Symbol::Error, tok.start, tok.end), lim, lim2);
        },
    }
}

/// The byte where the first `n` tokens end.
spec fn prefix_end(toks: Seq<Token>, n: nat) -> nat {
    if n == 0 {
        0
    } else {
        toks[n - 1].end as nat
    }
}

proof fn lemma_prefix_ok(toks: Seq<Token>, len: nat, n: nat)
    requires
        tokens_ordered(toks, len),
        n <= toks.len(),
        len < usize::MAX / 4,
    ensures
        state_ok(parse_prefix(toks, n), prefix_end(toks, n)),
        size(parse_prefix(toks, n)) <= 2 * n,
        prefix_end(toks, n) <= len,
        n <= len,
    decreases n,
{
    lemma_token_count(toks, len, n);
    if n > 0 {
        let m = (n - 1) as nat;
        lemma_prefix_ok(toks, len, m);
        if m > 0 {
            assert(toks[m - 1].end <= toks[m as int].start);
        }
        lemma_step_size(parse_prefix(toks, m), toks[m as int]);
        lemma_step_ok(parse_prefix(toks, m), toks[m as int], prefix_end(toks, m), prefix_end(toks, n));
    }
}

proof fn lemma_finish_wf(s: ParseState, lim: nat, len: nat)
    requires
        state_ok(s, lim),
        lim <= len,
        size(s) + 4 < usize::MAX,
        len <= usize::MAX,
    ensures
        finish(s, len).wf(),
        finish(s, len).nodes[finish(s, len).root as int].start == 0,
        finish(s, len).nodes[finish(s, len).root as int].end == len,
{
    let s1 = match s.pending {
        Some(id) => add_error_ident(s, id),
        None => s,
    };
    if let Some(id) = s.pending {
        lemma_add_error_ident_ok(s, id, lim);
    }
    assert(state_ok(s1, lim) && s1.pending is None);
    let s2 = if s1.mode == Mode::Closed {
        s1
    } else {
        add_top(s1, leaf(Symbol::Missing, len as usize, len as usize))
    };
    if s1.mode != Mode::Closed {
        lemma_add_top_ok(s1, leaf(Symbol::Missing, len as usize, len as usize), lim, len);
    } else {
        assert(forall|i: int| 0 <= i < s1.nodes.len() ==> (#[trigger] s1.nodes[i]).end <= len);
    }
    assert(state_ok(s2, len));
    let root = NodeView { symbol: Symbol::Block, start: 0, end: len as usize, children: s2.top };
    let t = finish(s, len);
    lemma_push_keeps_wf(s2.nodes, root);
    assert forall|k: int| 0 <= k < s2.top.len() implies t.nodes[(#[trigger] s2.top[k]) as int]
        == s2.nodes[s2.top[k] as int] by {
        assert(s2.top[k] < s2.nodes.len());
    }
    assert(node_wf(t.nodes, s2.nodes.len() as int));
}

/// The tree of any text satisfies the range invariant, and its root spans
/// the whole text.
pub proof fn lemma_parse_wf(text: Seq<u8>)
    requires
        text.len() < usize::MAX / 4,
    ensures
        parse_spec(text).wf(),
        parse_spec(text).nodes[parse_spec(text).root as int].start == 0,
        parse_spec(text).nodes[parse_spec(text).root as int].end == text.len(),
{
    let toks = lex_spec(text);
    lemma_lex_ordered(text);
    lemma_prefix_ok(toks, text.len(), toks.len());
    lemma_finish_wf(parse_prefix(toks, toks.len()), prefix_end(toks, toks.len()), text.len());
}

/// An ordered token stream has no more tokens than the text has bytes.
proof fn lemma_token_count(toks: Seq<Token>, len: nat, n: nat)
    requires
        tokens_ordered(toks, len),
        n <= toks.len(),
    ensures
        n <= len,
        n > 0 ==> n <= toks[n - 1].end,
    decreases n,
{
    if n > 1 {
        lemma_token_count(toks, len, (n - 1) as nat);
        assert(toks[n - 2].end <= toks[n - 1].start);
    }
}

proof fn lemma_parse_prefix_local(a: Seq<Token>, b: Seq<Token>, n: nat)
    requires
        n <= a.len(),
        n <= b.len(),
        forall|i: int| 0 <= i < n ==> a[i] == b[i],
    ensures
        parse_prefix(a, n) == parse_prefix(b, n),
    decreases n,
{
    if n > 0 {
        lemma_parse_prefix_local(a, b, (n - 1) as nat);
    }
}

proof fn lemma_parse_push(a: Seq<Token>, x: Token)
    ensures
        parse_prefix(a.push(x), a.len() + 1) == step(parse_prefix(a, a.len()), x),
{
    lemma_parse_prefix_local(a, a.push(x), a.len());
}

/// The parser's state once the tokens that end by byte `n` are read.
pub(crate) open spec fn ps_at(t: Seq<u8>, n: nat) -> ParseState {
    parse_prefix(lex_prefix(t, n).0, lex_prefix(t, n).0.len())
}

/// `r` holds `s`'s nodes and block children, and perhaps more after them.
pub(crate) open spec fn extends(s: ParseState, r: ParseState) -> bool {
    &&& s.nodes.len() <= r.nodes.len()
    &&& r.nodes.subrange(0, s.nodes.len() as int) == s.nodes
    &&& s.top.len() <= r.top.len()
    &&& r.top.subrange(0, s.top.len() as int) == s.top
}

proof fn lemma_extends_trans(a: ParseState, b: ParseState, c: ParseState)
    requires
        extends(a, b),
        extends(b, c),
    ensures
        extends(a, c),
{
    assert(c.nodes.subrange(0, a.nodes.len() as int) =~= b.nodes.subrange(0, a.nodes.len() as int));
    assert(c.top.subrange(0, a.top.len() as int) =~= b.top.subrange(0, a.top.len() as int));
}

proof fn lemma_add_top_extends(s: ParseState, n: NodeView)
    ensures
        extends(s, add_top(s, n)),
{
    let r = add_top(s, n);
    assert(r.nodes.subrange(0, s.nodes.len() as int) =~= s.nodes);
    assert(r.top.subrange(0, s.top.len() as int) =~= s.top);
}

proof fn lemma_add_error_ident_extends(s: ParseState, id: Token)
    ensures
        extends(s, add_error_ident(s, id)),
{
    let r = add_error_ident(s, id);
    assert(r.nodes.subrange(0, s.nodes.len() as int) =~= s.nodes);
    assert(r.top.subrange(0, s.top.len() as int) =~= s.top);
}

proof fn lemma_step_extends(s: ParseState, tok: Token)
    ensures
        extends(s, step(s, tok)),
{
    let r = step(s, tok);
    if s.mode == Mode::Body && s.pending is Some && tok.kind != TokenKind::Semi {
        let id = s.pending->Some_0;
        let s1 = add_error_ident(s, id);
        lemma_add_error_ident_extends(s, id);
        assert(r.nodes.subrange(0, s1.nodes.len() as int) =~= s1.nodes);
        assert(r.top.subrange(0, s1.top.len() as int) =~= s1.top);
        lemma_extends_trans(s, s1, r);
    } else {
        assert(r.nodes.subrange(0, s.nodes.len() as int) =~= s.nodes);
        assert(r.top.subrange(0, s.top.len() as int) =~= s.top);
    }
}

/// A place where parsing can resume: after byte `.0`, with the first `.1`
/// nodes and the first `.2` block children, inside the block and with no
/// identifier waiting.
pub type Checkpoint = (usize, usize, usize);

pub(crate) open spec fn cp_state(s: ParseState, cp: Checkpoint) -> ParseState {
    ParseState {
        nodes: s.nodes.subrange(0, cp.1 as int),
        top: s.top.subrange(0, cp.2 as int),
        mode: Mode::Body,
        pending: None,
    }
}

/// `cp` is a true resume point of `t`, whose nodes are those of `s`.
pub(crate) open spec fn cp_ok(t: Seq<u8>, s: ParseState, cp: Checkpoint) -> bool {
    &&& cp.0 <= t.len()
    &&& lex_prefix(t, cp.0 as nat).1 is None
    &&& cp.1 <= s.nodes.len()
    &&& cp.2 <= s.top.len()
    &&& ps_at(t, cp.0 as nat) == cp_state(s, cp)
}

pub(crate) proof fn lemma_cp_extends(t: Seq<u8>, s: ParseState, r: ParseState, cp: Checkpoint)
    requires
        cp_ok(t, s, cp),
        extends(s, r),
    ensures
        cp_ok(t, r, cp),
{
    assert(r.nodes.subrange(0, cp.1 as int) =~= s.nodes.subrange(0, cp.1 as int));
    assert(r.top.subrange(0, cp.2 as int) =~= s.top.subrange(0, cp.2 as int));
}

/// Facts about the state at byte `n` that the byte loop needs.
proof fn lemma_ps_at_ok(t: Seq<u8>, n: nat)
    requires
        n <= t.len(),
        t.len() < usize::MAX / 4,
    ensures
        size(ps_at(t, n)) <= 2 * n,
        ps_at(t, n).mode != Mode::Body ==> ps_at(t, n).pending is None,
{
    lemma_lex_prefix_ordered(t, n);
    let toks = lex_prefix(t, n).0;
    lemma_prefix_ok(toks, n, toks.len());
}

impl Builder {
    /// Reads byte `n` of `text`: the lexer's new tokens go to the parser.
    fn feed_byte(&mut self, text: &Vec<u8>, n: usize, open: Option<usize>) -> (r: Option<usize>)
        requires
            n < text@.len(),
            text@.len() < usize::MAX / 4,
            old(self)@ == ps_at(text@, n as nat),
            open == lex_prefix(text@, n as nat).1,
        ensures
            final(self)@ == ps_at(text@, (n + 1) as nat),
            r == lex_prefix(text@, (n + 1) as nat).1,
            extends(old(self)@, final(self)@),
    {
        proof {
            lemma_ps_at_ok(text@, n as nat);
        }
        let ghost toks = lex_prefix(text@, n as nat).0;
        let c = text[n];
        if is_ident_byte_exec(c) {
            proof {
                assert(ps_at(text@, (n + 1) as nat) == ps_at(text@, n as nat));
                assert(self@.nodes.subrange(0, self@.nodes.len() as int) =~= self@.nodes);
                assert(self@.top.subrange(0, self@.top.len() as int) =~= self@.top);
            }
            return if open.is_none() {
                Some(n)
            } else {
                open
            };
        }
        let ghost s0 = self@;
        if let Some(s) = open {
            let tok = Token { kind: TokenKind::Ident, start: s, end: n };
            proof {
                lemma_parse_push(toks, tok);
                lemma_step_size(self@, tok);
                lemma_step_extends(self@, tok);
            }
            self.step(tok);
        }
        let ghost toks2 = close_ident(toks, open, n as nat);
        let ghost s1 = self@;
        proof {
            assert(s1 == parse_prefix(toks2, toks2.len()));
            if open is None {
                assert(s1.nodes.subrange(0, s1.nodes.len() as int) =~= s1.nodes);
                assert(s1.top.subrange(0, s1.top.len() as int) =~= s1.top);
            }
            assert(extends(s0, s1));
        }
        if !is_space_exec(c) {
            let tok = Token { kind: single_kind_exec(c), start: n, end: n + 1 };
            proof {
                lemma_parse_push(toks2, tok);
                lemma_step_size(self@, tok);
                lemma_step_extends(self@, tok);
                lemma_extends_trans(s0, s1, step(s1, tok));
            }
            self.step(tok);
        }
        None
    }
}

/// Reads `text` from byte `from` to its end, and records a checkpoint at each
/// byte where the lexer and the parser are both at rest.
pub(crate) fn run_bytes(
    b: &mut Builder,
    text: &Vec<u8>,
    from: usize,
    open: Option<usize>,
    cps: &mut Vec<Checkpoint>,
) -> (r: Option<usize>)
    requires
        from <= text@.len(),
        text@.len() < usize::MAX / 4,
        old(b)@ == ps_at(text@, from as nat),
        open == lex_prefix(text@, from as nat).1,
        forall|k: int| 0 <= k < old(cps)@.len() ==> cp_ok(text@, old(b)@, #[trigger] old(cps)@[k]),
    ensures
        final(b)@ == ps_at(text@, text@.len()),
        r == lex_prefix(text@, text@.len()).1,
        extends(old(b)@, final(b)@),
        forall|k: int| 0 <= k < final(cps)@.len() ==> cp_ok(text@, final(b)@, #[trigger] final(cps)@[k]),
{
    let mut n = from;
    let mut open = open;
    let ghost s_init = b@;
    proof {
        assert(b@.nodes.subrange(0, b@.nodes.len() as int) =~= b@.nodes);
        assert(b@.top.subrange(0, b@.top.len() as int) =~= b@.top);
    }
    while n < text.len()
        invariant
            from <= n <= text@.len(),
            text@.len() < usize::MAX / 4,
            b@ == ps_at(text@, n as nat),
            open == lex_prefix(text@, n as nat).1,
            extends(s_init, b@),
            forall|k: int| 0 <= k < cps@.len() ==> cp_ok(text@, b@, #[trigger] cps@[k]),
        decreases text@.len() - n,
    {
        let ghost before = b@;
        open = b.feed_byte(text, n, open);
        n = n + 1;
        proof {
            lemma_extends_trans(s_init, before, b@);
            assert forall|k: int| 0 <= k < cps@.len() implies cp_ok(text@, b@, #[trigger] cps@[k]) by {
                lemma_cp_extends(text@, before, b@, cps@[k]);
            }
        }
        if open.is_none() && b.mode == Mode::Body && b.pending.is_none() {
            let cp = (n, b.nodes.len(), b.top.len());
            proof {
                assert(b@.nodes.subrange(0, cp.1 as int) =~= b@.nodes);
                assert(b@.top.subrange(0, cp.2 as int) =~= b@.top);
                assert(cp_state(b@, cp) == b@);
            }
            cps.push(cp);
        }
    }
    open
}

impl Builder {
    /// Ends the parse of `text`, whose bytes have all been read.
    pub(crate) fn complete(self, text: &Vec<u8>, open: Option<usize>) -> (r: Tree)
        requires
            text@.len() < usize::MAX / 4,
            self@ == ps_at(text@, text@.len()),
            open == lex_prefix(text@, text@.len()).1,
        ensures
            r@ == parse_spec(text@),
            extends(self@, tree_state(r@)),
    {
        let mut b = self;
        let ghost s0 = b@;
        proof {
            lemma_ps_at_ok(text@, text@.len());
        }
        let ghost toks = lex_prefix(text@, text@.len()).0;
        if let Some(s) = open {
            let tok = Token { kind: TokenKind::Ident, start: s, end: text.len() };
            proof {
                lemma_parse_push(toks, tok);
                lemma_step_size(b@, tok);
                lemma_step_extends(b@, tok);
            }
            b.step(tok);
        }
        let ghost s1 = b@;
        proof {
            lemma_lex_ordered(text@);
            if open is None {
                assert(s1.nodes.subrange(0, s1.nodes.len() as int) =~= s1.nodes);
                assert(s1.top.subrange(0, s1.top.len() as int) =~= s1.top);
            }
        }
        if let Some(id) = b.pending {
            proof {
                lemma_add_error_ident_extends(b@, id);
            }
            b.add_error_ident(id);
        }
        let ghost s2 = b@;
        proof {
            if s1.pending is None {
                assert(s2.nodes.subrange(0, s2.nodes.len() as int) =~= s2.nodes);
                assert(s2.top.subrange(0, s2.top.len() as int) =~= s2.top);
            }
            lemma_extends_trans(s0, s1, s2);
        }
        if b.mode != Mode::Closed {
            proof {
                lemma_add_top_extends(b@, leaf(Symbol::Missing, text.len(), text.len()));
            }
            b.add_top(Symbol::Missing, text.len(), text.len());
        }
        let ghost s3 = b@;
        proof {
            if s2.mode == Mode::Closed {
                assert(s3.nodes.subrange(0, s3.nodes.len() as int) =~= s3.nodes);
                assert(s3.top.subrange(0, s3.top.len() as int) =~= s3.top);
            }
            lemma_extends_trans(s0, s2, s3);
        }
        let top = b.top;
        let mut nodes = b.nodes;
        let root = nodes.len();
        nodes.push(SyntaxNode { symbol: Symbol::Block, start: 0, end: text.len(), children: top });
        let r = Tree { nodes, root };
        assert(r@.nodes =~= parse_spec(text@).nodes);
        proof {
            assert(tree_state(r@).nodes =~= s3.nodes);
            assert(s3.nodes.subrange(0, s3.nodes.len() as int) =~= s3.nodes);
            assert(s3.top.subrange(0, s3.top.len() as int) =~= s3.top);
            lemma_extends_trans(s0, s3, tree_state(r@));
        }
        r
    }
}

/// The nodes and block children that a finished tree holds, as a parser
/// state.
pub(crate) open spec fn tree_state(t: TreeView) -> ParseState {
    ParseState {
        nodes: t.nodes.subrange(0, t.root as int),
        top: t.nodes[t.root as int].children,
        mode: Mode::Closed,
        pending: None,
    }
}

/// Parses `text` and returns the checkpoints met on the way.
pub(crate) fn parse_with_checkpoints(text: &Vec<u8>) -> (r: (Tree, Vec<Checkpoint>))
    requires
        text@.len() < usize::MAX / 4,
    ensures
        r.0@ == parse_spec(text@),
        r.0@.wf(),
        r.0@.nodes[r.0@.root as int].start == 0,
        r.0@.nodes[r.0@.root as int].end == text@.len(),
        forall|k: int| 0 <= k < r.1@.len() ==> cp_ok(text@, tree_state(r.0@), #[trigger] r.1@[k]),
{
    let mut b = Builder::start();
    let mut cps: Vec<Checkpoint> = Vec::new();
    let open = run_bytes(&mut b, text, 0, None, &mut cps);
    let ghost s = b@;
    let tree = b.complete(text, open);
    proof {
        lemma_parse_wf(text@);
        assert forall|k: int| 0 <= k < cps@.len() implies cp_ok(text@, tree_state(tree@), #[trigger] cps@[k]) by {
            lemma_cp_extends(text@, s, tree_state(tree@), cps@[k]);
        }
    }
    (tree, cps)
}

} // verus!
