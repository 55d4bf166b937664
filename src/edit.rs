use vstd::prelude::*;

verus! {

/// A single text mutation: the bytes `[start, old_end)` are replaced by
/// `replacement`.
pub struct Edit {
    pub start: usize,
    pub old_end: usize,
    pub replacement: Vec<u8>,
}

impl Edit {
    /// The edit can be applied to a text of `len` bytes.
    pub open spec fn fits(&self, len: nat) -> bool {
        self.start <= self.old_end && self.old_end <= len
    }

    /// The byte where the replacement ends in the new text.
    pub open spec fn new_end(&self) -> nat {
        (self.start + self.replacement@.len()) as nat
    }
}

/// The text that results from applying `e` to `text`.
pub open spec fn edited(text: Seq<u8>, e: Edit) -> Seq<u8> {
    text.subrange(0, e.start as int) + e.replacement@ + text.subrange(
        e.old_end as int,
        text.len() as int,
    )
}

/// Applies `e` to `text`; `None` when the edit's range is reversed or runs
/// past the end of the text.
pub fn apply_edit(text: &Vec<u8>, e: &Edit) -> (r: Option<Vec<u8>>)
    ensures
        r is None <==> !e.fits(text@.len()),
        r matches Some(t) ==> t@ == edited(text@, *e),
{
    if e.start > e.old_end || e.old_end > text.len() {
        return None;
    }
    let mut out: Vec<u8> = Vec::new();
    let mut i: usize = 0;
    while i < e.start
        invariant
            i <= e.start,
            e.start <= e.old_end <= text@.len(),
            out@ == text@.subrange(0, i as int),
        decreases e.start - i,
    {
        out.push(text[i]);
        i = i + 1;
        assert(out@ =~= text@.subrange(0, i as int));
    }
    let mut j: usize = 0;
    while j < e.replacement.len()
        invariant
            j <= e.replacement@.len(),
            out@ == text@.subrange(0, e.start as int) + e.replacement@.subrange(0, j as int),
        decreases e.replacement@.len() - j,
    {
        out.push(e.replacement[j]);
        j = j + 1;
        assert(out@ =~= text@.subrange(0, e.start as int) + e.replacement@.subrange(0, j as int));
    }
    assert(e.replacement@.subrange(0, j as int) =~= e.replacement@);
    let mut k: usize = e.old_end;
    while k < text.len()
        invariant
            e.old_end <= k <= text@.len(),
            out@ == text@.subrange(0, e.start as int) + e.replacement@ + text@.subrange(
                e.old_end as int,
                k as int,
            ),
        decreases text@.len() - k,
    {
        out.push(text[k]);
        k = k + 1;
        assert(out@ =~= text@.subrange(0, e.start as int) + e.replacement@ + text@.subrange(
            e.old_end as int,
            k as int,
        ));
    }
    Some(out)
}

} // verus!
