//! A verified core for a syntax runtime: a lexer and an error-tolerant
//! parser for a small block language, an arena syntax tree whose ranges are
//! proved well nested, text edits, and a structural query matcher with text
//! predicates, walked depth first in pre-order. A `Document` resumes
//! parsing after an edit from the last checkpoint before it.

mod document;
mod edit;
mod lexer;
mod parser;
mod point;
mod query;
mod tree;

pub use document::Document;
pub use edit::{apply_edit, edited, Edit};
pub use lexer::{lemma_lex_ordered, lex, lex_spec, tokens_ordered, Token, TokenKind};
pub use parser::{
    lemma_parse_deterministic, lemma_parse_wf, parse,
    parse_spec, Mode, ParseState,
};
pub use point::{column_of, line_of, point_at, Point};
pub use query::{
    compile_pattern, compile_spec, symbol_name, QueryCompileError, QueryErrorKind,
    lemma_query_deterministic, lemma_query_sound, match_ok, patterns_view, query_spec, run_query,
    Match, Pattern, PatternView,
};
pub use tree::{lemma_node_at_holds, node_at, NodeView, Symbol, SyntaxNode, Tree, TreeView};
