use vstd::prelude::*;
use crate::edit::{apply_edit, edited, Edit};
use crate::lexer::{lemma_lex_prefix_local, lex_prefix};
use crate::parser::{
    cp_ok, cp_state, lemma_parse_wf, parse_spec, parse_with_checkpoints, ps_at, run_bytes,
    tree_state, Builder, Checkpoint,
};
use crate::tree::{nodes_view, SyntaxNode, Tree, TreeView};

verus! {

/// A text with its syntax tree and the points where a parse of it can be
/// resumed. An edit reuses the nodes before the last such point ahead of the
/// edit, without lexing or parsing that part again.
pub struct Document {
    text: Vec<u8>,
    tree: Tree,
    checkpoints: Vec<Checkpoint>,
}

fn copy_indices(v: &Vec<usize>, d: usize) -> (r: Vec<usize>)
    requires
        d <= v@.len(),
    ensures
        r@ == v@.subrange(0, d as int),
{
    let mut out: Vec<usize> = Vec::new();
    let mut k: usize = 0;
    while k < d
        invariant
            k <= d <= v@.len(),
            out@ == v@.subrange(0, k as int),
        decreases d - k,
    {
        out.push(v[k]);
        k = k + 1;
        assert(out@ =~= v@.subrange(0, k as int));
    }
    out
}

fn copy_nodes(nodes: &Vec<SyntaxNode>, c: usize) -> (r: Vec<SyntaxNode>)
    requires
        c <= nodes@.len(),
    ensures
        nodes_view(r@) == nodes_view(nodes@).subrange(0, c as int),
{
    let mut out: Vec<SyntaxNode> = Vec::new();
    let mut k: usize = 0;
    while k < c
        invariant
            k <= c <= nodes@.len(),
            out@.len() == k,
            forall|i: int| 0 <= i < k ==> (#[trigger] out@[i])@ == nodes@[i]@,
        decreases c - k,
    {
        let n = &nodes[k];
        let children = copy_indices(&n.children, n.children.len());
        assert(children@ =~= n.children@);
        let copy = SyntaxNode { symbol: n.symbol, start: n.start, end: n.end, children };
        assert(copy@ == n@);
        out.push(copy);
        k = k + 1;
    }
    assert(nodes_view(out@) =~= nodes_view(nodes@).subrange(0, c as int));
    out
}

impl Document {
    pub closed spec fn text_view(&self) -> Seq<u8> {
        self.text@
    }

    pub closed spec fn tree_view(&self) -> TreeView {
        self.tree@
    }

    /// The tree is the parse of the text, and every checkpoint is a true
    /// resume point of it.
    pub closed spec fn wf(&self) -> bool {
        &&& self.text@.len() < usize::MAX / 4
        &&& self.tree@ == parse_spec(self.text@)
        &&& forall|k: int|
            0 <= k < self.checkpoints@.len() ==> cp_ok(
                self.text@,
                tree_state(self.tree@),
                #[trigger] self.checkpoints@[k],
            )
    }

    /// Parses `text` from scratch.
    pub fn new(text: Vec<u8>) -> (r: Document)
        requires
            text@.len() < usize::MAX / 4,
        ensures
            r.wf(),
            r.text_view() == text@,
            r.tree_view() == parse_spec(text@),
            r.tree_view().wf(),
    {
        let (tree, checkpoints) = parse_with_checkpoints(&text);
        Document { text, tree, checkpoints }
    }

    pub fn text(&self) -> (r: &Vec<u8>)
        ensures
            r@ == self.text_view(),
    {
        &self.text
    }

    pub fn tree(&self) -> (r: &Tree)
        ensures
            r@ == self.tree_view(),
    {
        &self.tree
    }

    /// Applies `e` and parses again, resuming from the last checkpoint at or
    /// before the edit's start. The new tree is the one a parse from scratch
    /// of the edited text gives. `None` when the edit does not fit the text
    /// or the new text is too long to parse.
    pub fn edit(&self, e: &Edit) -> (r: Option<Document>)
        requires
            self.wf(),
        ensures
            r is None <==> !e.fits(self.text_view().len()) || edited(self.text_view(), *e).len()
                >= usize::MAX / 4,
            r matches Some(d) ==> d.wf() && d.text_view() == edited(self.text_view(), *e)
                && d.tree_view() == parse_spec(d.text_view()) && d.tree_view().wf(),
    {
        let t2 = match apply_edit(&self.text, e) {
            None => {
                return None;
            },
            Some(t) => t,
        };
        if t2.len() >= usize::MAX / 4 {
            return None;
        }
        let ghost t1 = self.text@;
        let ghost ts = tree_state(self.tree@);
        proof {
            lemma_parse_wf(t1);
        }
        let mut best: Option<Checkpoint> = None;
        let mut k: usize = 0;
        while k < self.checkpoints.len()
            invariant
                self.wf(),
                t1 == self.text@,
                ts == tree_state(self.tree@),
                k <= self.checkpoints@.len(),
                best matches Some(cp) ==> cp_ok(t1, ts, cp) && cp.0 <= e.start,
            decreases self.checkpoints@.len() - k,
        {
            let cp = self.checkpoints[k];
            if cp.0 <= e.start {
                match best {
                    Some(b) => {
                        if cp.0 >= b.0 {
                            best = Some(cp);
                        }
                    },
                    None => {
                        best = Some(cp);
                    },
                }
            }
            k = k + 1;
        }
        let (ce, c, d) = match best {
            None => {
                return Some(Document::new(t2));
            },
            Some(cp) => cp,
        };
        let root = self.tree.root;
        let nodes = copy_nodes(&self.tree.nodes, c);
        let top = copy_indices(&self.tree.nodes[root].children, d);
        let mut b = Builder::resume(nodes, top);
        proof {
            assert(b@.nodes =~= ts.nodes.subrange(0, c as int));
            assert(b@ == cp_state(ts, (ce, c, d)));
            assert forall|i: int| 0 <= i < ce implies t1[i] == t2@[i] by {
                assert(t2@[i] == t1.subrange(0, e.start as int)[i]);
            }
            lemma_lex_prefix_local(t1, t2@, ce as nat);
        }
        let mut cps: Vec<Checkpoint> = Vec::new();
        let mut j: usize = 0;
        while j < self.checkpoints.len()
            invariant
                self.wf(),
                t1 == self.text@,
                ts == tree_state(self.tree@),
                t2@ == edited(t1, *e),
                e.fits(t1.len()),
                cp_ok(t1, ts, (ce, c, d)),
                ce <= e.start,
                b@ == cp_state(ts, (ce, c, d)),
                j <= self.checkpoints@.len(),
                forall|i: int| 0 <= i < cps@.len() ==> cp_ok(t2@, b@, #[trigger] cps@[i]),
            decreases self.checkpoints@.len() - j,
        {
            let cp = self.checkpoints[j];
            if cp.0 <= ce && cp.1 <= c && cp.2 <= d {
                proof {
                    assert(cp_ok(t1, ts, self.checkpoints@[j as int]));
                    assert forall|i: int| 0 <= i < cp.0 implies t1[i] == t2@[i] by {
                        assert(t2@[i] == t1.subrange(0, e.start as int)[i]);
                    }
                    lemma_lex_prefix_local(t1, t2@, cp.0 as nat);
                    assert(cp_state(b@, cp).nodes =~= cp_state(ts, cp).nodes);
                    assert(cp_state(b@, cp).top =~= cp_state(ts, cp).top);
                }
                cps.push(cp);
            }
            j = j + 1;
        }
        let open = run_bytes(&mut b, &t2, ce, None, &mut cps);
        let ghost s = b@;
        let tree = b.complete(&t2, open);
        proof {
            lemma_parse_wf(t2@);
            assert forall|i: int| 0 <= i < cps@.len() implies cp_ok(
                t2@,
                tree_state(tree@),
                #[trigger] cps@[i],
            ) by {
                crate::parser::lemma_cp_extends(t2@, s, tree_state(tree@), cps@[i]);
            }
        }
        Some(Document { text: t2, tree, checkpoints: cps })
    }
}

} // verus!
