use vstd::prelude::*;
use crate::tree::{NodeView, Symbol, Tree, TreeView};

verus! {

/// A compiled pattern: a node of symbol `node` with a child of symbol
/// `capture`; each such child is captured in a match of its own. When
/// `text_eq` is set, the captured node's text must equal it.
pub struct Pattern {
    pub node: Symbol,
    pub capture: Symbol,
    pub text_eq: Option<Vec<u8>>,
}

pub struct PatternView {
    pub node: Symbol,
    pub capture: Symbol,
    pub text_eq: Option<Seq<u8>>,
}

impl View for Pattern {
    type V = PatternView;

    open spec fn view(&self) -> PatternView {
        PatternView {
            node: self.node,
            capture: self.capture,
            text_eq: match self.text_eq {
                Some(v) => Some(v@),
                None => None,
            },
        }
    }
}

pub open spec fn patterns_view(ps: Seq<Pattern>) -> Seq<PatternView> {
    ps.map_values(|p: Pattern| p@)
}

/// A match of pattern number `pattern` at node `node`, capturing node
/// `capture`.
#[derive(Clone, Copy, PartialEq, Eq, Structural, Debug)]
pub struct Match {
    pub pattern: usize,
    pub node: usize,
    pub capture: usize,
}

/// The bytes that node `n` spans, when they lie inside `text`.
pub open spec fn node_text_is(text: Seq<u8>, n: NodeView, lit: Seq<u8>) -> bool {
    n.start <= n.end <= text.len() && text.subrange(n.start as int, n.end as int) == lit
}

/// The predicates of `p` hold of the captured node `n`.
pub open spec fn predicates_hold(p: PatternView, text: Seq<u8>, n: NodeView) -> bool {
    match p.text_eq {
        Some(lit) => node_text_is(text, n, lit),
        None => true,
    }
}

/// Pattern number `pi` matches at node `i` and captures its child `c`.
pub open spec fn fits(p: PatternView, t: TreeView, text: Seq<u8>, i: int, c: usize) -> bool {
    &&& t.nodes[i].symbol == p.node
    &&& t.nodes[c as int].symbol == p.capture
    &&& predicates_hold(p, text, t.nodes[c as int])
}

/// The matches of pattern number `pi` at node `i` among its first `k`
/// children, one for each child that fits, in child order.
pub open spec fn pattern_matches(
    p: PatternView,
    pi: nat,
    t: TreeView,
    text: Seq<u8>,
    i: int,
    k: nat,
) -> Seq<Match>
    decreases k,
{
    let ch = t.nodes[i].children;
    if k == 0 || k > ch.len() {
        Seq::empty()
    } else {
        let prev = pattern_matches(p, pi, t, text, i, (k - 1) as nat);
        let c = ch[k - 1];
        if fits(p, t, text, i, c) {
            prev.push(Match { pattern: pi as usize, node: i as usize, capture: c })
        } else {
            prev
        }
    }
}

/// The matches at node `i` of the first `m` patterns, in declaration order.
pub open spec fn matches_at(ps: Seq<PatternView>, t: TreeView, text: Seq<u8>, i: int, m: nat) -> Seq<
    Match,
>
    decreases m,
{
    if m == 0 || m > ps.len() {
        Seq::empty()
    } else {
        matches_at(ps, t, text, i, (m - 1) as nat) + pattern_matches(
            ps[m - 1],
            (m - 1) as nat,
            t,
            text,
            i,
            t.nodes[i].children.len(),
        )
    }
}

/// The matches in the subtree of node `i`, depth first in pre-order: the
/// node's own matches, then those under each child from left to right.
pub open spec fn query_node(ps: Seq<PatternView>, t: TreeView, text: Seq<u8>, i: int) -> Seq<Match>
    decreases i, t.nodes[i].children.len() + 1,
{
    if !(0 <= i < t.nodes.len()) {
        Seq::empty()
    } else {
        matches_at(ps, t, text, i, ps.len()) + query_children(
            ps,
            t,
            text,
            i,
            t.nodes[i].children.len(),
        )
    }
}

/// The matches under the first `k` children of node `i`, left to right.
pub open spec fn query_children(
    ps: Seq<PatternView>,
    t: TreeView,
    text: Seq<u8>,
    i: int,
    k: nat,
) -> Seq<Match>
    decreases i, k,
{
    if !(0 <= i < t.nodes.len()) || k == 0 || k > t.nodes[i].children.len() {
        Seq::empty()
    } else {
        let c = t.nodes[i].children[k - 1];
        query_children(ps, t, text, i, (k - 1) as nat) + if c < i {
            query_node(ps, t, text, c as int)
        } else {
            Seq::empty()
        }
    }
}

/// The matches of `ps` in `t`: the nodes that the root reaches, depth first
/// in pre-order; at each node the patterns in declaration order; for each
/// pattern the captured children in order.
pub open spec fn query_spec(ps: Seq<PatternView>, t: TreeView, text: Seq<u8>) -> Seq<Match> {
    query_node(ps, t, text, t.root as int)
}

/// A match satisfies its pattern: shape, capture and predicates.
pub open spec fn match_ok(ps: Seq<PatternView>, t: TreeView, text: Seq<u8>, x: Match) -> bool {
    &&& x.pattern < ps.len()
    &&& x.node < t.nodes.len()
    &&& t.nodes[x.node as int].children.contains(x.capture)
    &&& x.capture < x.node
    &&& fits(ps[x.pattern as int], t, text, x.node as int, x.capture)
}

/// All of `s` satisfy their patterns.
pub open spec fn all_ok(ps: Seq<PatternView>, t: TreeView, text: Seq<u8>, s: Seq<Match>) -> bool {
    forall|k: int| 0 <= k < s.len() ==> match_ok(ps, t, text, #[trigger] s[k])
}

proof fn lemma_all_ok_concat(ps: Seq<PatternView>, t: TreeView, text: Seq<u8>, a: Seq<Match>, b: Seq<Match>)
    requires
        all_ok(ps, t, text, a),
        all_ok(ps, t, text, b),
    ensures
        all_ok(ps, t, text, a + b),
{
    assert forall|k: int| 0 <= k < (a + b).len() implies match_ok(ps, t, text, #[trigger] (a + b)[k]) by {
        if k < a.len() {
            assert((a + b)[k] == a[k]);
        } else {
            assert((a + b)[k] == b[k - a.len()]);
        }
    }
}

proof fn lemma_pattern_matches_ok(
    ps: Seq<PatternView>,
    pi: nat,
    t: TreeView,
    text: Seq<u8>,
    i: int,
    k: nat,
)
    requires
        t.wf(),
        0 <= i < t.nodes.len(),
        i <= usize::MAX,
        pi < ps.len(),
        ps.len() <= usize::MAX,
    ensures
        all_ok(ps, t, text, pattern_matches(ps[pi as int], pi, t, text, i, k)),
    decreases k,
{
    let ch = t.nodes[i].children;
    if k > 0 && k <= ch.len() {
        let prev = pattern_matches(ps[pi as int], pi, t, text, i, (k - 1) as nat);
        lemma_pattern_matches_ok(ps, pi, t, text, i, (k - 1) as nat);
        let c = ch[k - 1];
        assert(crate::tree::node_wf(t.nodes, i));
        assert(c < i);
        let r = pattern_matches(ps[pi as int], pi, t, text, i, k);
        if fits(ps[pi as int], t, text, i, c) {
            let x = Match { pattern: pi as usize, node: i as usize, capture: c };
            assert(ch[k - 1] == c);
            assert(match_ok(ps, t, text, x));
            assert forall|j: int| 0 <= j < r.len() implies match_ok(ps, t, text, #[trigger] r[j]) by {
                if j < prev.len() {
                    assert(r[j] == prev[j]);
                }
            }
        }
    }
}

proof fn lemma_matches_at_ok(ps: Seq<PatternView>, t: TreeView, text: Seq<u8>, i: int, m: nat)
    requires
        t.wf(),
        0 <= i < t.nodes.len(),
        i <= usize::MAX,
        ps.len() <= usize::MAX,
    ensures
        all_ok(ps, t, text, matches_at(ps, t, text, i, m)),
    decreases m,
{
    if m > 0 && m <= ps.len() {
        lemma_matches_at_ok(ps, t, text, i, (m - 1) as nat);
        lemma_pattern_matches_ok(ps, (m - 1) as nat, t, text, i, t.nodes[i].children.len());
        lemma_all_ok_concat(
            ps,
            t,
            text,
            matches_at(ps, t, text, i, (m - 1) as nat),
            pattern_matches(ps[m - 1], (m - 1) as nat, t, text, i, t.nodes[i].children.len()),
        );
    }
}

proof fn lemma_query_node_ok(ps: Seq<PatternView>, t: TreeView, text: Seq<u8>, i: int)
    requires
        t.wf(),
        i <= usize::MAX,
        ps.len() <= usize::MAX,
    ensures
        all_ok(ps, t, text, query_node(ps, t, text, i)),
    decreases i, t.nodes[i].children.len() + 1,
{
    if 0 <= i < t.nodes.len() {
        lemma_matches_at_ok(ps, t, text, i, ps.len());
        lemma_query_children_ok(ps, t, text, i, t.nodes[i].children.len());
        lemma_all_ok_concat(
            ps,
            t,
            text,
            matches_at(ps, t, text, i, ps.len()),
            query_children(ps, t, text, i, t.nodes[i].children.len()),
        );
    }
}

proof fn lemma_query_children_ok(ps: Seq<PatternView>, t: TreeView, text: Seq<u8>, i: int, k: nat)
    requires
        t.wf(),
        i <= usize::MAX,
        ps.len() <= usize::MAX,
    ensures
        all_ok(ps, t, text, query_children(ps, t, text, i, k)),
    decreases i, k,
{
    if 0 <= i < t.nodes.len() && k > 0 && k <= t.nodes[i].children.len() {
        let c = t.nodes[i].children[k - 1];
        lemma_query_children_ok(ps, t, text, i, (k - 1) as nat);
        let sub = if c < i {
            query_node(ps, t, text, c as int)
        } else {
            Seq::empty()
        };
        if c < i {
            lemma_query_node_ok(ps, t, text, c as int);
        }
        lemma_all_ok_concat(ps, t, text, query_children(ps, t, text, i, (k - 1) as nat), sub);
    }
}

/// Every match that a query yields fits its pattern's shape, and all of the
/// pattern's predicates hold of it: a shape that matches with a false
/// predicate yields nothing.
pub proof fn lemma_query_sound(ps: Seq<PatternView>, t: TreeView, text: Seq<u8>)
    requires
        t.wf(),
        ps.len() <= usize::MAX,
    ensures
        forall|k: int|
            0 <= k < query_spec(ps, t, text).len() ==> match_ok(
                ps,
                t,
                text,
                #[trigger] query_spec(ps, t, text)[k],
            ),
{
    lemma_query_node_ok(ps, t, text, t.root as int);
}

/// A query is a function of its patterns, the tree and the text: running
/// it twice yields the same matches in the same order.
pub proof fn lemma_query_deterministic(
    ps: Seq<PatternView>,
    t: TreeView,
    text: Seq<u8>,
    r1: Seq<Match>,
    r2: Seq<Match>,
)
    requires
        r1 == query_spec(ps, t, text),
        r2 == query_spec(ps, t, text),
    ensures
        r1 == r2,
{
}

fn text_is(text: &Vec<u8>, start: usize, end: usize, lit: &Vec<u8>) -> (r: bool)
    ensures
        r == (start <= end <= text@.len() && text@.subrange(start as int, end as int) == lit@),
{
    if start > end || end > text.len() || end - start != lit.len() {
        return false;
    }
    let mut k: usize = 0;
    while k < lit.len()
        invariant
            start <= end <= text@.len(),
            end - start == lit@.len(),
            k <= lit@.len(),
            forall|j: int| 0 <= j < k ==> text@[start + j] == lit@[j],
        decreases lit@.len() - k,
    {
        if text[start + k] != lit[k] {
            assert(text@.subrange(start as int, end as int)[k as int] != lit@[k as int]);
            return false;
        }
        k = k + 1;
    }
    assert(text@.subrange(start as int, end as int) =~= lit@);
    true
}

/// Appends the matches at node `i` to `out`.
fn matches_at_exec(ps: &Vec<Pattern>, tree: &Tree, text: &Vec<u8>, i: usize, out: &mut Vec<Match>)
    requires
        tree@.wf(),
        i < tree@.nodes.len(),
    ensures
        final(out)@ == old(out)@ + matches_at(patterns_view(ps@), tree@, text@, i as int, ps@.len()),
        all_ok(
            patterns_view(ps@),
            tree@,
            text@,
            matches_at(patterns_view(ps@), tree@, text@, i as int, ps@.len()),
        ),
{
    let ghost pv = patterns_view(ps@);
    let ghost base = out@;
    let ch = &tree.nodes[i].children;
    proof {
        assert(crate::tree::node_wf(tree@.nodes, i as int));
    }
    let mut m: usize = 0;
    while m < ps.len()
        invariant
            tree@.wf(),
            pv == patterns_view(ps@),
            i < tree@.nodes.len(),
            ch@ == tree@.nodes[i as int].children,
            crate::tree::node_wf(tree@.nodes, i as int),
            m <= ps@.len(),
            out@ == base + matches_at(pv, tree@, text@, i as int, m as nat),
        decreases ps@.len() - m,
    {
        let p = &ps[m];
        assert(pv[m as int] == p@);
        let ghost mid = out@;
        let mut k: usize = 0;
        while k < ch.len()
            invariant
                tree@.wf(),
                pv == patterns_view(ps@),
                i < tree@.nodes.len(),
                m < ps@.len(),
                pv[m as int] == p@,
                ch@ == tree@.nodes[i as int].children,
                crate::tree::node_wf(tree@.nodes, i as int),
                k <= ch@.len(),
                out@ == mid + pattern_matches(p@, m as nat, tree@, text@, i as int, k as nat),
            decreases ch@.len() - k,
        {
            let c = ch[k];
            assert(c < i);
            if tree.nodes[i].symbol == p.node && tree.nodes[c].symbol == p.capture {
                let ok = match &p.text_eq {
                    Some(lit) => text_is(text, tree.nodes[c].start, tree.nodes[c].end, lit),
                    None => true,
                };
                if ok {
                    out.push(Match { pattern: m, node: i, capture: c });
                }
            }
            k = k + 1;
            assert(out@ =~= mid + pattern_matches(p@, m as nat, tree@, text@, i as int, k as nat));
        }
        m = m + 1;
        assert(out@ =~= base + matches_at(pv, tree@, text@, i as int, m as nat));
    }
    proof {
        assert(pv.len() == ps@.len());
        lemma_matches_at_ok(pv, tree@, text@, i as int, ps@.len());
    }
}

/// Appends the matches in the subtree of node `i` to `out`.
fn walk(ps: &Vec<Pattern>, tree: &Tree, text: &Vec<u8>, i: usize, out: &mut Vec<Match>)
    requires
        tree@.wf(),
        i < tree@.nodes.len(),
    ensures
        final(out)@ == old(out)@ + query_node(patterns_view(ps@), tree@, text@, i as int),
        all_ok(
            patterns_view(ps@),
            tree@,
            text@,
            query_node(patterns_view(ps@), tree@, text@, i as int),
        ),
    decreases i,
{
    let ghost pv = patterns_view(ps@);
    let ghost base = out@;
    matches_at_exec(ps, tree, text, i, out);
    let ghost here = out@;
    let ch = &tree.nodes[i].children;
    proof {
        assert(crate::tree::node_wf(tree@.nodes, i as int));
    }
    let mut k: usize = 0;
    while k < ch.len()
        invariant
            tree@.wf(),
            pv == patterns_view(ps@),
            i < tree@.nodes.len(),
            ch@ == tree@.nodes[i as int].children,
            crate::tree::node_wf(tree@.nodes, i as int),
            k <= ch@.len(),
            here == base + matches_at(pv, tree@, text@, i as int, ps@.len()),
            out@ == here + query_children(pv, tree@, text@, i as int, k as nat),
            all_ok(pv, tree@, text@, query_children(pv, tree@, text@, i as int, k as nat)),
        decreases ch@.len() - k,
    {
        let c = ch[k];
        assert(c < i);
        walk(ps, tree, text, c, out);
        proof {
            lemma_all_ok_concat(
                pv,
                tree@,
                text@,
                query_children(pv, tree@, text@, i as int, k as nat),
                query_node(pv, tree@, text@, c as int),
            );
        }
        k = k + 1;
        assert(out@ =~= here + query_children(pv, tree@, text@, i as int, k as nat));
    }
    assert(out@ =~= base + query_node(pv, tree@, text@, i as int));
    proof {
        lemma_all_ok_concat(
            pv,
            tree@,
            text@,
            matches_at(pv, tree@, text@, i as int, ps@.len()),
            query_children(pv, tree@, text@, i as int, ch@.len()),
        );
    }
}

/// Runs the patterns `ps` over `tree`, whose text is `text`.
pub fn run_query(ps: &Vec<Pattern>, tree: &Tree, text: &Vec<u8>) -> (r: Vec<Match>)
    requires
        tree@.wf(),
    ensures
        r@ == query_spec(patterns_view(ps@), tree@, text@),
        forall|k: int|
            0 <= k < r@.len() ==> match_ok(patterns_view(ps@), tree@, text@, #[trigger] r@[k]),
{
    let mut out: Vec<Match> = Vec::new();
    walk(ps, tree, text, tree.root, &mut out);
    assert(out@ =~= query_spec(patterns_view(ps@), tree@, text@));
    out
}

/// Why a pattern source does not compile.
#[derive(Clone, Copy, PartialEq, Eq, Structural, Debug)]
pub enum QueryErrorKind {
    /// The source has no `/` between the node and the capture.
    NoCapture,
    /// A name that no symbol has.
    UnknownSymbol,
}

/// A compile error and the byte of the pattern source where it was found.
#[derive(Clone, Copy, PartialEq, Eq, Structural, Debug)]
pub struct QueryCompileError {
    pub kind: QueryErrorKind,
    pub offset: usize,
}

/// The name of each symbol in pattern sources.
pub open spec fn symbol_name(s: Symbol) -> Seq<u8> {
    match s {
        Symbol::Block => seq![98u8, 108, 111, 99, 107],
        Symbol::Stmt => seq![115u8, 116, 109, 116],
        Symbol::LBrace => seq![108u8, 98, 114, 97, 99, 101],
        Symbol::RBrace => seq![114u8, 98, 114, 97, 99, 101],
        Symbol::Semi => seq![115u8, 101, 109, 105],
        Symbol::Ident => seq![105u8, 100, 101, 110, 116],
        Symbol::Error => seq![69u8, 82, 82, 79, 82],
        Symbol::Missing => seq![77u8, 73, 83, 83, 73, 78, 71],
    }
}

/// The symbol called `name`, if any.
pub open spec fn symbol_named(name: Seq<u8>) -> Option<Symbol> {
    if name == symbol_name(Symbol::Block) {
        Some(Symbol::Block)
    } else if name == symbol_name(Symbol::Stmt) {
        Some(Symbol::Stmt)
    } else if name == symbol_name(Symbol::LBrace) {
        Some(Symbol::LBrace)
    } else if name == symbol_name(Symbol::RBrace) {
        Some(Symbol::RBrace)
    } else if name == symbol_name(Symbol::Semi) {
        Some(Symbol::Semi)
    } else if name == symbol_name(Symbol::Ident) {
        Some(Symbol::Ident)
    } else if name == symbol_name(Symbol::Error) {
        Some(Symbol::Error)
    } else if name == symbol_name(Symbol::Missing) {
        Some(Symbol::Missing)
    } else {
        None
    }
}

/// The first index at or after `k` where `s` holds `b`.
pub open spec fn find_byte(s: Seq<u8>, b: u8, k: nat) -> Option<nat>
    decreases s.len() - k,
{
    if k >= s.len() {
        None
    } else if s[k as int] == b {
        Some(k)
    } else {
        find_byte(s, b, k + 1)
    }
}

/// The pattern that the source `node/capture` or `node/capture=text`
/// denotes, or the first error in it.
pub open spec fn compile_spec(src: Seq<u8>) -> Result<PatternView, QueryCompileError> {
    match find_byte(src, 47, 0) {
        None => Err(QueryCompileError { kind: QueryErrorKind::NoCapture, offset: src.len() as usize }),
        Some(sl) => match symbol_named(src.subrange(0, sl as int)) {
            None => Err(QueryCompileError { kind: QueryErrorKind::UnknownSymbol, offset: 0 }),
            Some(node) => {
                let eq = find_byte(src, 61, sl + 1);
                let cap_end: nat = match eq {
                    Some(e) => e,
                    None => src.len(),
                };
                match symbol_named(src.subrange(sl + 1int, cap_end as int)) {
                    None => Err(
                        QueryCompileError {
                            kind: QueryErrorKind::UnknownSymbol,
                            offset: (sl + 1) as usize,
                        },
                    ),
                    Some(capture) => Ok(
                        PatternView {
                            node,
                            capture,
                            text_eq: match eq {
                                Some(e) => Some(src.subrange(e + 1int, src.len() as int)),
                                None => None,
                            },
                        },
                    ),
                }
            },
        },
    }
}

fn find_byte_exec(s: &Vec<u8>, b: u8, from: usize) -> (r: Option<usize>)
    ensures
        r is None <==> find_byte(s@, b, from as nat) is None,
        r matches Some(i) ==> find_byte(s@, b, from as nat) == Some(i as nat) && from <= i
            < s@.len(),
{
    let mut k = from;
    while k < s.len()
        invariant
            from <= k,
            find_byte(s@, b, from as nat) == find_byte(s@, b, k as nat),
        decreases s@.len() - k,
    {
        if s[k] == b {
            return Some(k);
        }
        k = k + 1;
    }
    None
}

fn symbol_name_exec(sym: Symbol) -> (r: Vec<u8>)
    ensures
        r@ == symbol_name(sym),
{
    let r = match sym {
        Symbol::Block => vec![98u8, 108, 111, 99, 107],
        Symbol::Stmt => vec![115u8, 116, 109, 116],
        Symbol::LBrace => vec![108u8, 98, 114, 97, 99, 101],
        Symbol::RBrace => vec![114u8, 98, 114, 97, 99, 101],
        Symbol::Semi => vec![115u8, 101, 109, 105],
        Symbol::Ident => vec![105u8, 100, 101, 110, 116],
        Symbol::Error => vec![69u8, 82, 82, 79, 82],
        Symbol::Missing => vec![77u8, 73, 83, 83, 73, 78, 71],
    };
    assert(r@ =~= symbol_name(sym));
    r
}

fn symbol_named_exec(src: &Vec<u8>, start: usize, end: usize) -> (r: Option<Symbol>)
    requires
        start <= end <= src@.len(),
    ensures
        r == symbol_named(src@.subrange(start as int, end as int)),
{
    if text_is(src, start, end, &symbol_name_exec(Symbol::Block)) {
        Some(Symbol::Block)
    } else if text_is(src, start, end, &symbol_name_exec(Symbol::Stmt)) {
        Some(Symbol::Stmt)
    } else if text_is(src, start, end, &symbol_name_exec(Symbol::LBrace)) {
        Some(Symbol::LBrace)
    } else if text_is(src, start, end, &symbol_name_exec(Symbol::RBrace)) {
        Some(Symbol::RBrace)
    } else if text_is(src, start, end, &symbol_name_exec(Symbol::Semi)) {
        Some(Symbol::Semi)
    } else if text_is(src, start, end, &symbol_name_exec(Symbol::Ident)) {
        Some(Symbol::Ident)
    } else if text_is(src, start, end, &symbol_name_exec(Symbol::Error)) {
        Some(Symbol::Error)
    } else if text_is(src, start, end, &symbol_name_exec(Symbol::Missing)) {
        Some(Symbol::Missing)
    } else {
        None
    }
}

fn copy_range(src: &Vec<u8>, start: usize) -> (r: Vec<u8>)
    requires
        start <= src@.len(),
    ensures
        r@ == src@.subrange(start as int, src@.len() as int),
{
    let mut out: Vec<u8> = Vec::new();
    let mut k = start;
    while k < src.len()
        invariant
            start <= k <= src@.len(),
            out@ == src@.subrange(start as int, k as int),
        decreases src@.len() - k,
    {
        out.push(src[k]);
        k = k + 1;
        assert(out@ =~= src@.subrange(start as int, k as int));
    }
    out
}

/// Compiles a pattern source of the form `node/capture` or
/// `node/capture=text`; names are those of `symbol_name`.
pub fn compile_pattern(src: &Vec<u8>) -> (r: Result<Pattern, QueryCompileError>)
    ensures
        r matches Ok(p) ==> compile_spec(src@) == Ok::<PatternView, QueryCompileError>(p@),
        r matches Err(e) ==> compile_spec(src@) == Err::<PatternView, QueryCompileError>(e),
{
    let len = src.len();
    let sl = match find_byte_exec(src, 47, 0) {
        None => {
            return Err(QueryCompileError { kind: QueryErrorKind::NoCapture, offset: len });
        },
        Some(sl) => sl,
    };
    let node = match symbol_named_exec(src, 0, sl) {
        None => {
            return Err(QueryCompileError { kind: QueryErrorKind::UnknownSymbol, offset: 0 });
        },
        Some(n) => n,
    };
    let eq = find_byte_exec(src, 61, sl + 1);
    let cap_end = match eq {
        Some(e) => e,
        None => len,
    };
    let capture = match symbol_named_exec(src, sl + 1, cap_end) {
        None => {
            return Err(QueryCompileError { kind: QueryErrorKind::UnknownSymbol, offset: sl + 1 });
        },
        Some(c) => c,
    };
    let text_eq = match eq {
        Some(e) => Some(copy_range(src, e + 1)),
        None => None,
    };
    Ok(Pattern { node, capture, text_eq })
}

} // verus!
