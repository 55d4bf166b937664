use vstd::prelude::*;
use crate::tree::Tree;

verus! {

/// The line of byte `off` of `t`: the newlines before it.
pub open spec fn line_of(t: Seq<u8>, off: nat) -> nat
    decreases off,
{
    if off == 0 || off > t.len() {
        0
    } else {
        line_of(t, (off - 1) as nat) + if t[off - 1] == 10 {
            1nat
        } else {
            0nat
        }
    }
}

/// The column of byte `off` of `t`: the bytes between the last newline
/// before it and it.
pub open spec fn column_of(t: Seq<u8>, off: nat) -> nat
    decreases off,
{
    if off == 0 || off > t.len() {
        0
    } else if t[off - 1] == 10 {
        0
    } else {
        column_of(t, (off - 1) as nat) + 1
    }
}

/// A position as a line and a column, both counted from zero.
#[derive(Clone, Copy, PartialEq, Eq, Structural, Debug)]
pub struct Point {
    pub line: usize,
    pub column: usize,
}

/// The point of byte `off` of `text`.
pub fn point_at(text: &Vec<u8>, off: usize) -> (r: Point)
    requires
        off <= text@.len(),
    ensures
        r.line == line_of(text@, off as nat),
        r.column == column_of(text@, off as nat),
{
    let mut line: usize = 0;
    let mut column: usize = 0;
    let mut k: usize = 0;
    while k < off
        invariant
            k <= off <= text@.len(),
            line == line_of(text@, k as nat),
            column == column_of(text@, k as nat),
            line <= k,
            column <= k,
        decreases off - k,
    {
        if text[k] == 10 {
            line = line + 1;
            column = 0;
        } else {
            column = column + 1;
        }
        k = k + 1;
    }
    Point { line, column }
}

impl Tree {
    /// The start and end points of node `i` in `text`; `None` when its range
    /// does not lie inside `text`.
    pub fn point_range(&self, i: usize, text: &Vec<u8>) -> (r: Option<(Point, Point)>)
        requires
            i < self@.nodes.len(),
        ensures
            r is None <==> !(self@.nodes[i as int].start <= self@.nodes[i as int].end
                <= text@.len()),
            r matches Some((a, b)) ==> a.line == line_of(text@, self@.nodes[i as int].start as nat)
                && a.column == column_of(text@, self@.nodes[i as int].start as nat) && b.line
                == line_of(text@, self@.nodes[i as int].end as nat) && b.column == column_of(
                text@,
                self@.nodes[i as int].end as nat,
            ),
    {
        let start = self.nodes[i].start;
        let end = self.nodes[i].end;
        if start > end || end > text.len() {
            return None;
        }
        Some((point_at(text, start), point_at(text, end)))
    }
}

} // verus!
