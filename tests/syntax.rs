use tree_sitter_bmb::{
    apply_edit, compile_pattern, Document, QueryCompileError, QueryErrorKind, lex, parse, run_query, Edit, Match, Pattern, Symbol, Token,
    TokenKind, Tree,
};

fn bytes(s: &str) -> Vec<u8> {
    s.as_bytes().to_vec()
}

fn top_symbols(t: &Tree) -> Vec<Symbol> {
    let mut out = Vec::new();
    for k in 0..t.child_count(t.root) {
        out.push(t.symbol(t.child(t.root, k)));
    }
    out
}

fn top_ranges(t: &Tree) -> Vec<(usize, usize)> {
    let mut out = Vec::new();
    for k in 0..t.child_count(t.root) {
        out.push(t.range(t.child(t.root, k)));
    }
    out
}

/// Checks the range invariant on every node of `t`.
fn ranges_nested(t: &Tree) -> bool {
    for i in 0..t.node_count() {
        let (s, e) = t.range(i);
        if s > e {
            return false;
        }
        let mut last = s;
        for k in 0..t.child_count(i) {
            let c = t.child(i, k);
            let (cs, ce) = t.range(c);
            if c >= i || cs < last || ce > e {
                return false;
            }
            last = ce;
        }
    }
    true
}

#[test]
fn lexes_tokens_and_errors() {
    let toks = lex(&bytes("{ab; ?}"));
    assert_eq!(
        toks,
        vec![
            Token { kind: TokenKind::LBrace, start: 0, end: 1 },
            Token { kind: TokenKind::Ident, start: 1, end: 3 },
            Token { kind: TokenKind::Semi, start: 3, end: 4 },
            Token { kind: TokenKind::Error, start: 5, end: 6 },
            Token { kind: TokenKind::RBrace, start: 6, end: 7 },
        ]
    );
}

#[test]
fn lexes_identifier_at_end_of_text() {
    let toks = lex(&bytes(" x_9"));
    assert_eq!(toks, vec![Token { kind: TokenKind::Ident, start: 1, end: 4 }]);
}

#[test]
fn parses_block_with_two_statements() {
    let t = parse(&bytes("{a;b;}"));
    assert_eq!(t.symbol(t.root), Symbol::Block);
    assert_eq!(t.range(t.root), (0, 6));
    assert_eq!(
        top_symbols(&t),
        vec![Symbol::LBrace, Symbol::Stmt, Symbol::Stmt, Symbol::RBrace]
    );
    assert_eq!(top_ranges(&t), vec![(0, 1), (1, 3), (3, 5), (5, 6)]);
    let stmt = t.child(t.root, 1);
    assert_eq!(t.child_count(stmt), 2);
    assert_eq!(t.symbol(t.child(stmt, 0)), Symbol::Ident);
    assert_eq!(t.symbol(t.child(stmt, 1)), Symbol::Semi);
}

#[test]
fn edit_leaves_later_statement_equal_by_value() {
    let text = bytes("{a;b;}");
    let before = parse(&text);
    let e = Edit { start: 1, old_end: 2, replacement: bytes("c") };
    let doc = Document::new(text.clone());
    let edited = doc.edit(&e).unwrap();
    let new_text = edited.text().clone();
    let after = edited.tree().clone();
    assert_eq!(new_text, bytes("{c;b;}"));
    assert_eq!(after, parse(&new_text));
    let old_second = &before.nodes[before.child(before.root, 2)];
    let new_second = &after.nodes[after.child(after.root, 2)];
    assert_eq!(old_second, new_second);
    let first = after.child(after.root, 1);
    assert_eq!(after.symbol(first), Symbol::Stmt);
    assert_eq!(after.range(first), (1, 3));
}

#[test]
fn parsing_twice_gives_identical_trees() {
    let text = bytes("{ x; y z; ;} }");
    assert_eq!(parse(&text), parse(&text));
}

#[test]
fn edited_parse_equals_parse_from_scratch() {
    let text = bytes("{a;bb;c;}");
    let e = Edit { start: 3, old_end: 6, replacement: bytes("q r;") };
    let doc = Document::new(text);
    let edited = doc.edit(&e).unwrap();
    assert_eq!(edited.text(), &bytes("{a;q r;c;}"));
    assert_eq!(edited.tree(), &parse(&bytes("{a;q r;c;}")));
}

#[test]
fn edit_out_of_range_is_refused() {
    let text = bytes("{a;}");
    let past = Edit { start: 2, old_end: 9, replacement: bytes("x") };
    assert_eq!(apply_edit(&text, &past), None);
    assert!(Document::new(text.clone()).edit(&past).is_none());
    let reversed = Edit { start: 3, old_end: 2, replacement: Vec::new() };
    assert_eq!(apply_edit(&text, &reversed), None);
}

#[test]
fn edit_can_delete_and_insert() {
    let text = bytes("{a;}");
    let del = Edit { start: 1, old_end: 3, replacement: Vec::new() };
    assert_eq!(apply_edit(&text, &del), Some(bytes("{}")));
    let ins = Edit { start: 4, old_end: 4, replacement: bytes("!") };
    assert_eq!(apply_edit(&text, &ins), Some(bytes("{a;}!")));
}

#[test]
fn ranges_are_nested_on_malformed_input() {
    for s in ["", "{", "}", "a;", "{a b;", "{{;}}", "{a;} x", "?{ a ; }", "{a;b"] {
        let t = parse(&bytes(s));
        assert!(ranges_nested(&t), "input {:?}", s);
    }
}

#[test]
fn root_covers_whole_input() {
    for s in ["", "   ", "abc", "{a b", "}}{", "{a;b;}\n"] {
        let t = parse(&bytes(s));
        assert_eq!(t.range(t.root), (0, s.len()), "input {:?}", s);
        assert_eq!(t.symbol(t.root), Symbol::Block);
    }
}

#[test]
fn missing_brace_and_unfinished_statement() {
    let t = parse(&bytes("{a;b"));
    assert_eq!(
        top_symbols(&t),
        vec![Symbol::LBrace, Symbol::Stmt, Symbol::Error, Symbol::Missing]
    );
    assert_eq!(top_ranges(&t), vec![(0, 1), (1, 3), (3, 4), (4, 4)]);
    let err = t.child(t.root, 2);
    assert_eq!(t.child_count(err), 1);
    assert_eq!(t.symbol(t.child(err, 0)), Symbol::Ident);
}

#[test]
fn tokens_before_brace_and_after_close_are_errors() {
    let t = parse(&bytes("x{}y"));
    assert_eq!(
        top_symbols(&t),
        vec![Symbol::Error, Symbol::LBrace, Symbol::RBrace, Symbol::Error]
    );
}

#[test]
fn identifier_without_semicolon_becomes_error() {
    let t = parse(&bytes("{a b;}"));
    assert_eq!(
        top_symbols(&t),
        vec![Symbol::LBrace, Symbol::Error, Symbol::Stmt, Symbol::RBrace]
    );
    assert_eq!(top_ranges(&t), vec![(0, 1), (1, 2), (3, 5), (5, 6)]);
}

fn stmt_name_pattern(lit: Option<&str>) -> Pattern {
    Pattern { node: Symbol::Stmt, capture: Symbol::Ident, text_eq: lit.map(bytes) }
}

#[test]
fn query_captures_every_statement() {
    let text = bytes("{a;b;}");
    let t = parse(&text);
    let ms = run_query(&vec![stmt_name_pattern(None)], &t, &text);
    assert_eq!(ms.len(), 2);
    assert_eq!(t.range(ms[0].capture), (1, 2));
    assert_eq!(t.range(ms[1].capture), (3, 4));
    assert_eq!(t.symbol(ms[0].node), Symbol::Stmt);
}

#[test]
fn query_predicate_filters_matches() {
    let text = bytes("{a;b;}");
    let t = parse(&text);
    let ms = run_query(&vec![stmt_name_pattern(Some("b"))], &t, &text);
    assert_eq!(ms.len(), 1);
    assert_eq!(ms[0].pattern, 0);
    assert_eq!(t.range(ms[0].capture), (3, 4));
    let none = run_query(&vec![stmt_name_pattern(Some("z"))], &t, &text);
    assert!(none.is_empty());
    let longer = run_query(&vec![stmt_name_pattern(Some("bb"))], &t, &text);
    assert!(longer.is_empty());
}

#[test]
fn query_reports_overlaps_in_declaration_order() {
    let text = bytes("{a;}");
    let t = parse(&text);
    let ps = vec![
        stmt_name_pattern(None),
        Pattern { node: Symbol::Stmt, capture: Symbol::Semi, text_eq: None },
        stmt_name_pattern(Some("a")),
    ];
    let ms = run_query(&ps, &t, &text);
    let stmt = t.child(t.root, 1);
    assert_eq!(
        ms,
        vec![
            Match { pattern: 0, node: stmt, capture: t.child(stmt, 0) },
            Match { pattern: 1, node: stmt, capture: t.child(stmt, 1) },
            Match { pattern: 2, node: stmt, capture: t.child(stmt, 0) },
        ]
    );
}

#[test]
fn query_runs_are_identical() {
    let text = bytes("{x;y;x;}");
    let t = parse(&text);
    let ps = vec![stmt_name_pattern(Some("x")), stmt_name_pattern(None)];
    let first = run_query(&ps, &t, &text);
    let second = run_query(&ps, &t, &text);
    assert_eq!(first, second);
    assert_eq!(first.len(), 5);
}

#[test]
fn query_on_error_nodes() {
    let text = bytes("{a b;}");
    let t = parse(&text);
    let ps = vec![Pattern { node: Symbol::Error, capture: Symbol::Ident, text_eq: Some(bytes("a")) }];
    let ms = run_query(&ps, &t, &text);
    assert_eq!(ms.len(), 1);
    assert_eq!(t.range(ms[0].node), (1, 2));
}

#[test]
fn compiles_pattern_with_predicate() {
    let p = compile_pattern(&bytes("stmt/ident=b")).unwrap();
    assert_eq!(p.node, Symbol::Stmt);
    assert_eq!(p.capture, Symbol::Ident);
    assert_eq!(p.text_eq, Some(bytes("b")));
    let text = bytes("{a;b;}");
    let t = parse(&text);
    let ms = run_query(&vec![p], &t, &text);
    assert_eq!(ms.len(), 1);
    assert_eq!(t.range(ms[0].capture), (3, 4));
}

#[test]
fn compiles_pattern_without_predicate() {
    let p = compile_pattern(&bytes("ERROR/ident")).unwrap();
    assert_eq!(p.node, Symbol::Error);
    assert_eq!(p.capture, Symbol::Ident);
    assert_eq!(p.text_eq, None);
}

#[test]
fn compile_reports_missing_capture() {
    assert_eq!(
        compile_pattern(&bytes("stmt")).err(),
        Some(QueryCompileError { kind: QueryErrorKind::NoCapture, offset: 4 })
    );
}

#[test]
fn compile_reports_unknown_symbols_with_offset() {
    assert_eq!(
        compile_pattern(&bytes("stmnt/ident")).err(),
        Some(QueryCompileError { kind: QueryErrorKind::UnknownSymbol, offset: 0 })
    );
    assert_eq!(
        compile_pattern(&bytes("block/name=x")).err(),
        Some(QueryCompileError { kind: QueryErrorKind::UnknownSymbol, offset: 6 })
    );
}

#[test]
fn node_at_finds_smallest_enclosing_node() {
    let t = parse(&bytes("{ab;c;}"));
    let n = t.node_at(2);
    assert_eq!(t.symbol(n), Symbol::Ident);
    assert_eq!(t.range(n), (1, 3));
    let s = t.node_at(3);
    assert_eq!(t.symbol(s), Symbol::Semi);
    assert_eq!(t.range(t.node_at(0)), (0, 1));
    assert_eq!(t.node_at(7), t.root);
}

#[test]
fn successive_edits_match_fresh_parses() {
    let mut doc = Document::new(bytes("{a;b;c;}"));
    let edits = [
        Edit { start: 5, old_end: 6, replacement: bytes("x y") },
        Edit { start: 0, old_end: 1, replacement: Vec::new() },
        Edit { start: 2, old_end: 2, replacement: bytes(";{") },
        Edit { start: 0, old_end: 0, replacement: bytes("{ ") },
        Edit { start: 4, old_end: 8, replacement: bytes("}") },
    ];
    for e in edits.iter() {
        doc = doc.edit(e).unwrap();
        assert_eq!(doc.tree(), &parse(doc.text()));
    }
}

#[test]
fn edit_inside_identifier_relexes_it() {
    let doc = Document::new(bytes("{abc;de;}"));
    let e = Edit { start: 2, old_end: 3, replacement: bytes(" ") };
    let d = doc.edit(&e).unwrap();
    assert_eq!(d.text(), &bytes("{a c;de;}"));
    assert_eq!(d.tree(), &parse(&bytes("{a c;de;}")));
    assert_eq!(
        top_symbols(d.tree()),
        vec![Symbol::LBrace, Symbol::Error, Symbol::Stmt, Symbol::Stmt, Symbol::RBrace]
    );
}

#[test]
fn query_visits_parent_before_children() {
    let text = bytes("{a;}");
    let t = parse(&text);
    let stmt = t.child(t.root, 1);
    let ident = t.child(stmt, 0);
    let block_stmt = Pattern { node: Symbol::Block, capture: Symbol::Stmt, text_eq: None };
    let ms = run_query(&vec![block_stmt, stmt_name_pattern(None)], &t, &text);
    assert_eq!(
        ms,
        vec![
            Match { pattern: 0, node: t.root, capture: stmt },
            Match { pattern: 1, node: stmt, capture: ident },
        ]
    );
    let block_stmt = Pattern { node: Symbol::Block, capture: Symbol::Stmt, text_eq: None };
    let ms = run_query(&vec![stmt_name_pattern(None), block_stmt], &t, &text);
    assert_eq!(
        ms,
        vec![
            Match { pattern: 1, node: t.root, capture: stmt },
            Match { pattern: 0, node: stmt, capture: ident },
        ]
    );
}

#[test]
fn query_captures_each_fitting_child() {
    let text = bytes("{a;b;}");
    let t = parse(&text);
    let all = run_query(&vec![compile_pattern(&bytes("block/stmt")).unwrap()], &t, &text);
    assert_eq!(all.len(), 2);
    assert_eq!(t.range(all[0].capture), (1, 3));
    assert_eq!(t.range(all[1].capture), (3, 5));
    let second = run_query(&vec![compile_pattern(&bytes("block/stmt=b;")).unwrap()], &t, &text);
    assert_eq!(second.len(), 1);
    assert_eq!(second[0].node, t.root);
    assert_eq!(t.range(second[0].capture), (3, 5));
}

#[test]
fn parent_and_text_of_nodes() {
    let text = bytes("{ab;c;}");
    let t = parse(&text);
    let stmt = t.child(t.root, 2);
    let semi = t.child(stmt, 1);
    assert_eq!(t.parent(semi), Some(stmt));
    assert_eq!(t.parent(stmt), Some(t.root));
    assert_eq!(t.parent(t.root), None);
    assert_eq!(t.text_of(stmt, &text), Some(bytes("c;")));
    assert_eq!(t.text_of(t.child(t.root, 1), &text), Some(bytes("ab;")));
    assert_eq!(t.text_of(t.root, &bytes("{a")), None);
}

#[test]
fn points_count_lines_and_columns() {
    let text = bytes("{a;\n  bc;\n}");
    let t = parse(&text);
    let stmt = t.child(t.root, 2);
    let (a, b) = t.point_range(stmt, &text).unwrap();
    assert_eq!(a, tree_sitter_bmb::Point { line: 1, column: 2 });
    assert_eq!(b, tree_sitter_bmb::Point { line: 1, column: 5 });
    let (r0, r1) = t.point_range(t.root, &text).unwrap();
    assert_eq!(r0, tree_sitter_bmb::Point { line: 0, column: 0 });
    assert_eq!(r1, tree_sitter_bmb::Point { line: 2, column: 1 });
    assert_eq!(tree_sitter_bmb::point_at(&text, 4), tree_sitter_bmb::Point { line: 1, column: 0 });
    assert!(t.point_range(t.root, &bytes("{")).is_none());
}
