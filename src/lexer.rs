use vstd::prelude::*;

verus! {

/// The terminal symbols of the block language.
#[derive(Clone, Copy, PartialEq, Eq, Structural, Debug)]
pub enum TokenKind {
    LBrace,
    RBrace,
    Semi,
    Ident,
    /// A byte that no lexical rule accepts.
    Error,
}

/// A token over the byte range `[start, end)` of the source.
#[derive(Clone, Copy, PartialEq, Eq, Structural, Debug)]
pub struct Token {
    pub kind: TokenKind,
    pub start: usize,
    pub end: usize,
}

pub open spec fn is_space(b: u8) -> bool {
    b == 32 || b == 9 || b == 10 || b == 13
}

pub open spec fn is_ident_byte(b: u8) -> bool {
    (97 <= b && b <= 122) || (65 <= b && b <= 90) || (48 <= b && b <= 57) || b == 95
}

/// The token kind of a byte that forms a token by itself.
pub open spec fn single_kind(b: u8) -> TokenKind {
    if b == 123 {
        TokenKind::LBrace
    } else if b == 125 {
        TokenKind::RBrace
    } else if b == 59 {
        TokenKind::Semi
    } else {
        TokenKind::Error
    }
}

/// Ends the identifier that started at `open`, if any, at byte `p`.
pub open spec fn close_ident(toks: Seq<Token>, open: Option<usize>, p: nat) -> Seq<Token> {
    match open {
        Some(s) => toks.push(Token { kind: TokenKind::Ident, start: s, end: p as usize }),
        None => toks,
    }
}

/// The tokens found in the first `n` bytes of `t`, and the start of an
/// identifier that is still open at byte `n`.
pub open spec fn lex_prefix(t: Seq<u8>, n: nat) -> (Seq<Token>, Option<usize>)
    decreases n,
{
    if n == 0 || n > t.len() {
        (Seq::empty(), None)
    } else {
        let (toks, open) = lex_prefix(t, (n - 1) as nat);
        let p = (n - 1) as nat;
        let b = t[p as int];
        if is_ident_byte(b) {
            match open {
                Some(s) => (toks, Some(s)),
                None => (toks, Some(p as usize)),
            }
        } else {
            let closed = close_ident(toks, open, p);
            if is_space(b) {
                (closed, None)
            } else {
                (
                    closed.push(Token { kind: single_kind(b), start: p as usize, end: n as usize }),
                    None,
                )
            }
        }
    }
}

/// The token stream of `t`: maximal identifier runs, single-byte
/// punctuation, one error token per unknown byte; whitespace separates.
pub open spec fn lex_spec(t: Seq<u8>) -> Seq<Token> {
    let (toks, open) = lex_prefix(t, t.len());
    close_ident(toks, open, t.len())
}

/// Tokens are non-empty, in order, disjoint, and inside `[0, len]`.
pub open spec fn tokens_ordered(toks: Seq<Token>, len: nat) -> bool {
    &&& forall|k: int|
        0 <= k < toks.len() ==> (#[trigger] toks[k]).start < toks[k].end && toks[k].end <= len
    &&& forall|j: int, k: int|
        0 <= j < k < toks.len() ==> (#[trigger] toks[j]).end <= (#[trigger] toks[k]).start
}

proof fn lemma_ordered_weaken(toks: Seq<Token>, a: nat, b: nat)
    requires
        tokens_ordered(toks, a),
        a <= b,
    ensures
        tokens_ordered(toks, b),
{
}

proof fn lemma_ordered_push(toks: Seq<Token>, tok: Token, len: nat)
    requires
        tokens_ordered(toks, len),
        toks.len() > 0 ==> toks.last().end <= tok.start,
        tok.start < tok.end <= len,
    ensures
        tokens_ordered(toks.push(tok), len),
{
    let r = toks.push(tok);
    assert forall|j: int, k: int| 0 <= j < k < r.len() implies (#[trigger] r[j]).end <= (
    #[trigger] r[k]).start by {
        assert(r[j] == toks[j]);
        if k < toks.len() {
            assert(r[k] == toks[k]);
        } else {
            if j < toks.len() - 1 {
                assert(toks[j].end <= toks[toks.len() - 1].start);
            }
            assert(toks[toks.len() - 1].end <= tok.start);
        }
    }
    assert forall|k: int| 0 <= k < r.len() implies (#[trigger] r[k]).start < r[k].end && r[k].end
        <= len by {
        if k < toks.len() {
            assert(r[k] == toks[k]);
        }
    }
}

proof fn lemma_close_ordered(toks: Seq<Token>, open: Option<usize>, p: nat)
    requires
        tokens_ordered(toks, p),
        p <= usize::MAX,
        open matches Some(s) ==> s < p && (toks.len() > 0 ==> toks.last().end <= s),
    ensures
        tokens_ordered(close_ident(toks, open, p), p),
        close_ident(toks, open, p).len() > 0 ==> close_ident(toks, open, p).last().end <= p,
{
    if let Some(s) = open {
        lemma_ordered_push(toks, Token { kind: TokenKind::Ident, start: s, end: p as usize }, p);
    } else if toks.len() > 0 {
        assert(toks[toks.len() - 1].end <= p);
    }
}

pub(crate) proof fn lemma_lex_prefix_ordered(t: Seq<u8>, n: nat)
    requires
        n <= t.len(),
        t.len() <= usize::MAX,
    ensures
        ({
            let (toks, open) = lex_prefix(t, n);
            &&& tokens_ordered(toks, n)
            &&& open matches Some(s) ==> s < n && (toks.len() > 0 ==> toks.last().end <= s)
            &&& open is None && toks.len() > 0 ==> toks.last().end <= n
        }),
    decreases n,
{
    if n > 0 {
        let m = (n - 1) as nat;
        lemma_lex_prefix_ordered(t, m);
        let (toks, open) = lex_prefix(t, m);
        let b = t[m as int];
        if is_ident_byte(b) {
            lemma_ordered_weaken(toks, m, n);
            if open is None && toks.len() > 0 {
                assert(toks[toks.len() - 1].end <= m);
            }
        } else {
            let closed = close_ident(toks, open, m);
            lemma_close_ordered(toks, open, m);
            lemma_ordered_weaken(closed, m, n);
            if !is_space(b) {
                lemma_ordered_push(
                    closed,
                    Token { kind: single_kind(b), start: m as usize, end: n as usize },
                    n,
                );
            }
        }
    }
}

/// The token stream is ordered and covers no byte outside the text.
pub proof fn lemma_lex_ordered(t: Seq<u8>)
    requires
        t.len() <= usize::MAX,
    ensures
        tokens_ordered(lex_spec(t), t.len()),
{
    lemma_lex_prefix_ordered(t, t.len());
    let (toks, open) = lex_prefix(t, t.len());
    lemma_close_ordered(toks, open, t.len());
}

pub(crate) fn is_space_exec(b: u8) -> (r: bool)
    ensures
        r == is_space(b),
{
    b == 32 || b == 9 || b == 10 || b == 13
}

pub(crate) fn is_ident_byte_exec(b: u8) -> (r: bool)
    ensures
        r == is_ident_byte(b),
{
    (97 <= b && b <= 122) || (65 <= b && b <= 90) || (48 <= b && b <= 57) || b == 95
}

pub(crate) fn single_kind_exec(b: u8) -> (r: TokenKind)
    ensures
        r == single_kind(b),
{
    if b == 123 {
        TokenKind::LBrace
    } else if b == 125 {
        TokenKind::RBrace
    } else if b == 59 {
        TokenKind::Semi
    } else {
        TokenKind::Error
    }
}

/// Splits `text` into tokens.
pub fn lex(text: &Vec<u8>) -> (r: Vec<Token>)
    ensures
        r@ == lex_spec(text@),
        tokens_ordered(r@, text@.len()),
{
    let mut toks: Vec<Token> = Vec::new();
    let mut open: Option<usize> = None;
    let mut i: usize = 0;
    while i < text.len()
        invariant
            i <= text@.len(),
            (toks@, open) == lex_prefix(text@, i as nat),
        decreases text@.len() - i,
    {
        let b = text[i];
        if is_ident_byte_exec(b) {
            if open.is_none() {
                open = Some(i);
            }
        } else {
            if let Some(s) = open {
                toks.push(Token { kind: TokenKind::Ident, start: s, end: i });
            }
            open = None;
            if !is_space_exec(b) {
                toks.push(Token { kind: single_kind_exec(b), start: i, end: i + 1 });
            }
        }
        i = i + 1;
    }
    if let Some(s) = open {
        toks.push(Token { kind: TokenKind::Ident, start: s, end: text.len() });
    }
    proof {
        lemma_lex_ordered(text@);
    }
    toks
}

/// The lexer's state at byte `n` depends on the first `n` bytes alone.
pub(crate) proof fn lemma_lex_prefix_local(t1: Seq<u8>, t2: Seq<u8>, n: nat)
    requires
        n <= t1.len(),
        n <= t2.len(),
        forall|i: int| 0 <= i < n ==> t1[i] == t2[i],
    ensures
        lex_prefix(t1, n) == lex_prefix(t2, n),
    decreases n,
{
    if n > 0 {
        lemma_lex_prefix_local(t1, t2, (n - 1) as nat);
    }
}

} // verus!
