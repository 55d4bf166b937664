use vstd::prelude::*;

verus! {

/// Grammar symbols of the block language, including the two kinds of
/// recovery node.
#[derive(Clone, Copy, PartialEq, Eq, Structural, Debug)]
pub enum Symbol {
    Block,
    Stmt,
    LBrace,
    RBrace,
    Semi,
    Ident,
    /// Input that was skipped to recover from a syntax error.
    Error,
    /// A zero-width stand-in for an expected token that is absent.
    Missing,
}

/// A node of the arena: its symbol, its byte range `[start, end)` and the
/// arena indices of its children, in source order.
#[derive(Clone, PartialEq, Eq, Debug)]
pub struct SyntaxNode {
    pub symbol: Symbol,
    pub start: usize,
    pub end: usize,
    pub children: Vec<usize>,
}

pub struct NodeView {
    pub symbol: Symbol,
    pub start: usize,
    pub end: usize,
    pub children: Seq<usize>,
}

impl View for SyntaxNode {
    type V = NodeView;

    open spec fn view(&self) -> NodeView {
        NodeView {
            symbol: self.symbol,
            start: self.start,
            end: self.end,
            children: self.children@,
        }
    }
}

/// A syntax tree: an arena of nodes where every child is stored before its
/// parent, and the index of the root.
#[derive(Clone, PartialEq, Eq, Debug)]
pub struct Tree {
    pub nodes: Vec<SyntaxNode>,
    pub root: usize,
}

pub struct TreeView {
    pub nodes: Seq<NodeView>,
    pub root: usize,
}

pub open spec fn nodes_view(nodes: Seq<SyntaxNode>) -> Seq<NodeView> {
    nodes.map_values(|n: SyntaxNode| n@)
}

impl View for Tree {
    type V = TreeView;

    open spec fn view(&self) -> TreeView {
        TreeView { nodes: nodes_view(self.nodes@), root: self.root }
    }
}

pub open spec fn leaf(symbol: Symbol, start: usize, end: usize) -> NodeView {
    NodeView { symbol, start, end, children: Seq::empty() }
}

/// Every child of node `i` is stored before it and lies inside its range,
/// and the children are disjoint and in increasing order.
pub open spec fn node_wf(nodes: Seq<NodeView>, i: int) -> bool {
    let n = nodes[i];
    &&& n.start <= n.end
    &&& forall|k: int|
        0 <= k < n.children.len() ==> {
            let c = #[trigger] n.children[k];
            &&& c < i
            &&& n.start <= nodes[c as int].start
            &&& nodes[c as int].end <= n.end
        }
    &&& forall|j: int, k: int|
        0 <= j < k < n.children.len() ==> nodes[(#[trigger] n.children[j]) as int].end
            <= nodes[(#[trigger] n.children[k]) as int].start
}

pub open spec fn all_nodes_wf(nodes: Seq<NodeView>) -> bool {
    forall|i: int| 0 <= i < nodes.len() ==> #[trigger] node_wf(nodes, i)
}

impl TreeView {
    /// The range invariant of a syntax tree, for every node.
    pub open spec fn wf(&self) -> bool {
        &&& self.root < self.nodes.len()
        &&& all_nodes_wf(self.nodes)
    }

    /// The number of children of node `i`.
    pub open spec fn child_count(&self, i: int) -> nat {
        self.nodes[i].children.len()
    }
}

/// Appending a node keeps every earlier node well formed.
pub proof fn lemma_push_keeps_wf(nodes: Seq<NodeView>, x: NodeView)
    requires
        all_nodes_wf(nodes),
    ensures
        forall|i: int| 0 <= i < nodes.len() ==> #[trigger] node_wf(nodes.push(x), i),
{
    let r = nodes.push(x);
    assert forall|i: int| 0 <= i < nodes.len() implies #[trigger] node_wf(r, i) by {
        assert(node_wf(nodes, i));
        assert(r[i] == nodes[i]);
        let n = nodes[i];
        assert forall|k: int| 0 <= k < n.children.len() implies r[(#[trigger] n.children[k]) as int]
            == nodes[n.children[k] as int] by {
            assert(n.children[k] < i);
        }
    }
}

impl Tree {
    /// The number of nodes in the arena.
    pub fn node_count(&self) -> (r: usize)
        ensures
            r == self@.nodes.len(),
    {
        self.nodes.len()
    }

    /// The byte range of node `i`.
    pub fn range(&self, i: usize) -> (r: (usize, usize))
        requires
            i < self@.nodes.len(),
        ensures
            r == (self@.nodes[i as int].start, self@.nodes[i as int].end),
    {
        (self.nodes[i].start, self.nodes[i].end)
    }

    /// The symbol of node `i`.
    pub fn symbol(&self, i: usize) -> (r: Symbol)
        requires
            i < self@.nodes.len(),
        ensures
            r == self@.nodes[i as int].symbol,
    {
        self.nodes[i].symbol
    }

    /// The number of children of node `i`.
    pub fn child_count(&self, i: usize) -> (r: usize)
        requires
            i < self@.nodes.len(),
        ensures
            r == self@.child_count(i as int),
    {
        self.nodes[i].children.len()
    }

    /// The arena index of the `k`-th child of node `i`.
    pub fn child(&self, i: usize, k: usize) -> (r: usize)
        requires
            i < self@.nodes.len(),
            k < self@.child_count(i as int),
        ensures
            r == self@.nodes[i as int].children[k as int],
    {
        self.nodes[i].children[k]
    }
}

/// The node under `i` that holds byte `off`: the first child whose range
/// holds it, searched from the left, and so on down; `i` itself when no
/// child holds it.
pub open spec fn node_at(t: TreeView, i: int, off: usize) -> int
    decreases i,
{
    if !(0 <= i < t.nodes.len()) {
        i
    } else {
        match first_holding(t, t.nodes[i].children, off, 0) {
            Some(c) => if 0 <= c < i {
                node_at(t, c as int, off)
            } else {
                i
            },
            None => i,
        }
    }
}

/// The first of `ch[k..]` whose range holds byte `off`.
pub open spec fn first_holding(t: TreeView, ch: Seq<usize>, off: usize, k: nat) -> Option<usize>
    decreases ch.len() - k,
{
    if k >= ch.len() {
        None
    } else if t.nodes[ch[k as int] as int].start <= off < t.nodes[ch[k as int] as int].end {
        Some(ch[k as int])
    } else {
        first_holding(t, ch, off, k + 1)
    }
}

proof fn lemma_first_holding(t: TreeView, ch: Seq<usize>, off: usize, k: nat)
    ensures
        first_holding(t, ch, off, k) matches Some(c) ==> ch.contains(c) && t.nodes[c as int].start
            <= off < t.nodes[c as int].end,
    decreases ch.len() - k,
{
    if k < ch.len() {
        if t.nodes[ch[k as int] as int].start <= off < t.nodes[ch[k as int] as int].end {
            assert(ch[k as int] == ch[k as int]);
        } else {
            lemma_first_holding(t, ch, off, k + 1);
        }
    }
}

impl Tree {
    fn first_holding_exec(&self, i: usize, off: usize) -> (r: Option<usize>)
        requires
            self@.wf(),
            i < self@.nodes.len(),
        ensures
            r == first_holding(self@, self@.nodes[i as int].children, off, 0),
            r matches Some(c) ==> c < i,
    {
        let ch = &self.nodes[i].children;
        proof {
            assert(node_wf(self@.nodes, i as int));
        }
        let mut k: usize = 0;
        while k < ch.len()
            invariant
                i < self@.nodes.len(),
                ch@ == self@.nodes[i as int].children,
                node_wf(self@.nodes, i as int),
                k <= ch@.len(),
                first_holding(self@, ch@, off, 0) == first_holding(self@, ch@, off, k as nat),
            decreases ch@.len() - k,
        {
            let c = ch[k];
            assert(c < i);
            if self.nodes[c].start <= off && off < self.nodes[c].end {
                return Some(c);
            }
            k = k + 1;
        }
        None
    }

    /// The smallest node that holds byte `off`, found by descending from the
    /// root; the root itself when no child holds it.
    pub fn node_at(&self, off: usize) -> (r: usize)
        requires
            self@.wf(),
        ensures
            r == node_at(self@, self@.root as int, off),
            r < self@.nodes.len(),
    {
        let mut i = self.root;
        loop
            invariant
                self@.wf(),
                i < self@.nodes.len(),
                node_at(self@, self@.root as int, off) == node_at(self@, i as int, off),
            decreases i,
        {
            match self.first_holding_exec(i, off) {
                Some(c) => {
                    i = c;
                },
                None => {
                    return i;
                },
            }
        }
    }

    /// The node that has node `i` among its children, if any: the first
    /// such node in the arena.
    pub fn parent(&self, i: usize) -> (r: Option<usize>)
        ensures
            r matches Some(p) ==> p < self@.nodes.len() && self@.nodes[p as int].children.contains(
                i,
            ),
            r is None ==> forall|j: int|
                0 <= j < self@.nodes.len() ==> !(#[trigger] self@.nodes[j]).children.contains(i),
    {
        let mut j: usize = 0;
        while j < self.nodes.len()
            invariant
                j <= self@.nodes.len(),
                forall|q: int| 0 <= q < j ==> !(#[trigger] self@.nodes[q]).children.contains(i),
            decreases self@.nodes.len() - j,
        {
            let ch = &self.nodes[j].children;
            let mut k: usize = 0;
            while k < ch.len()
                invariant
                    j < self@.nodes.len(),
                    ch@ == self@.nodes[j as int].children,
                    k <= ch@.len(),
                    forall|q: int| 0 <= q < k ==> ch@[q] != i,
                decreases ch@.len() - k,
            {
                if ch[k] == i {
                    assert(ch@[k as int] == i);
                    return Some(j);
                }
                k = k + 1;
            }
            j = j + 1;
        }
        None
    }

    /// The bytes of `text` that node `i` spans; `None` when its range does
    /// not lie inside `text`.
    pub fn text_of(&self, i: usize, text: &Vec<u8>) -> (r: Option<Vec<u8>>)
        requires
            i < self@.nodes.len(),
        ensures
            r is None <==> !(self@.nodes[i as int].start <= self@.nodes[i as int].end
                <= text@.len()),
            r matches Some(v) ==> v@ == text@.subrange(
                self@.nodes[i as int].start as int,
                self@.nodes[i as int].end as int,
            ),
    {
        let start = self.nodes[i].start;
        let end = self.nodes[i].end;
        if start > end || end > text.len() {
            return None;
        }
        let mut out: Vec<u8> = Vec::new();
        let mut k = start;
        while k < end
            invariant
                start <= k <= end <= text@.len(),
                out@ == text@.subrange(start as int, k as int),
            decreases end - k,
        {
            out.push(text[k]);
            k = k + 1;
            assert(out@ =~= text@.subrange(start as int, k as int));
        }
        Some(out)
    }
}

/// The node found for a byte holds that byte, unless it is the root.
pub proof fn lemma_node_at_holds(t: TreeView, i: int, off: usize)
    requires
        t.wf(),
        0 <= i < t.nodes.len(),
        t.nodes[i].start <= off < t.nodes[i].end,
    ensures
        0 <= node_at(t, i, off) < t.nodes.len(),
        t.nodes[node_at(t, i, off)].start <= off < t.nodes[node_at(t, i, off)].end,
    decreases i,
{
    lemma_first_holding(t, t.nodes[i].children, off, 0);
    assert(node_wf(t.nodes, i));
    if let Some(c) = first_holding(t, t.nodes[i].children, off, 0) {
        let j = choose|j: int| 0 <= j < t.nodes[i].children.len() && t.nodes[i].children[j] == c;
        assert(t.nodes[i].children[j] < i);
        lemma_node_at_holds(t, c as int, off);
    }
}

} // verus!
