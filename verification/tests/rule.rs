use change_to_rule::analysis::{after_analysis, AnalysedCrate, FindRulesState};
use change_to_rule::codemap::{CodeMap, FileMap, FileName};
use change_to_rule::error::{RuleError, SearchError};
use change_to_rule::hir::{Body, Def, Expr, Generics, Item, Node, Path, Ty};
use change_to_rule::matcher::Placeholder;
use change_to_rule::order::sort_by_keys;
use change_to_rule::paths::ReferencedPathsFinder;
use change_to_rule::rule::{build_rule, substitute_placeholders, try_substitute_placeholders};
use change_to_rule::rule_finder::{Candidate, RuleFinder};
use change_to_rule::session::{Session, Version};
use change_to_rule::span::{ChangedSpan, Span, SyntaxContext};
use change_to_rule::token::TokenStream;
use change_to_rule::text::{append_decimal, insert_text, is_text_before, join};

fn root(lo: u32, hi: u32) -> Span {
    Span::new(lo, hi, SyntaxContext::Root)
}

fn expr(lo: u32, hi: u32, children: Vec<Node>) -> Expr {
    let ty = Ty { text: "u8".to_owned(), has_params: false };
    Expr { span: root(lo, hi), ty, is_call: false, children }
}

fn path(def: Def, names: &[&str]) -> Node {
    let components = names.iter().map(|n| n.to_string()).collect();
    Node::Path(Path { def, components, children: Vec::new() })
}

fn one_file(text: &str) -> CodeMap {
    let name = FileName::Real("lib.rs".to_owned());
    CodeMap { files: vec![FileMap::new(name, 0, text.to_owned())] }
}

fn plain_item() -> Item {
    Item { generics: None, children: Vec::new() }
}

#[test]
fn substitutions_go_by_position() {
    let codemap = one_file("foo(a, bb, c)");
    let mut subs = vec![
        (root(7, 9), "p1".to_owned()),
        (root(4, 5), "p0".to_owned()),
        (root(11, 12), "p2".to_owned()),
    ];
    let text = substitute_placeholders(&codemap, &root(0, 13), &mut subs);
    assert_eq!(text, "foo(p0, p1, p2)");
    let text = substitute_placeholders(&codemap, &root(3, 13), &mut subs);
    assert_eq!(text, "(p0, p1, p2)");
}

#[test]
fn substitutions_are_left_sorted() {
    let codemap = one_file("(x + 1, y + 1)");
    let mut subs = vec![(root(8, 13), "p1".to_owned()), (root(1, 6), "p0".to_owned())];
    let text = substitute_placeholders(&codemap, &root(0, 14), &mut subs);
    assert_eq!(text, "(p0, p1)");
    let sorted = vec![(root(1, 6), "p0".to_owned()), (root(8, 13), "p1".to_owned())];
    assert_eq!(subs, sorted);
}

#[test]
fn no_substitution_leaves_the_code() {
    let codemap = one_file("foo(a, bb, c)");
    let text = substitute_placeholders(&codemap, &root(4, 9), &mut Vec::new());
    assert_eq!(text, "a, bb");
}

#[test]
fn putting_text_back_leaves_the_code() {
    let codemap = one_file("foo(ä, bb, c)");
    let mut subs = vec![(root(8, 10), "bb".to_owned()), (root(4, 6), "ä".to_owned())];
    let text = substitute_placeholders(&codemap, &root(0, 14), &mut subs);
    assert_eq!(text, "foo(ä, bb, c)");
}

#[test]
fn substitution_needs_the_text_between() {
    let codemap = one_file("foo(ä)");
    let mut inside_a_letter = vec![(root(4, 5), "p0".to_owned())];
    let text = try_substitute_placeholders(&codemap, &root(0, 7), &mut inside_a_letter);
    assert_eq!(text, None);
    let text = try_substitute_placeholders(&codemap, &root(0, 9), &mut Vec::new());
    assert_eq!(text, None);
}

#[test]
fn paths_are_qualified_and_unique() {
    let inner = expr(0, 1, vec![path(Def::Fn, &["m", "f"]), path(Def::Other, &["x"])]);
    let outer = expr(
        0,
        9,
        vec![
            Node::Expr(inner),
            path(Def::Fn, &["m", "f"]),
            Node::Body(Body { id: 1, children: vec![path(Def::Struct, &["S"])] }),
        ],
    );
    let mut paths = ReferencedPathsFinder::paths_in_expr(&outer);
    paths.sort();
    assert_eq!(paths, vec!["::S".to_owned(), "::m::f".to_owned()]);
}

#[test]
fn importable_definitions() {
    assert!(Def::Mod.is_importable());
    assert!(Def::VariantCtor.is_importable());
    assert!(!Def::Other.is_importable());
}

#[test]
fn rule_has_sorted_imports() {
    let codemap = one_file("f(x)");
    let other = one_file("g(x)");
    let call = expr(0, 4, vec![path(Def::Fn, &["m", "f"])]);
    let argument = expr(2, 3, Vec::new());
    let placeholders = vec![Placeholder { expr: &argument, uses: vec![root(2, 3)] }];
    let right_paths = vec!["::m::g".to_owned(), "::a".to_owned(), "::m::f".to_owned()];
    let rule = build_rule(
        &codemap,
        &placeholders,
        &call,
        &plain_item(),
        &right_paths,
        &other,
        &root(0, 4),
    );
    let expected = "use ::a; use ::m::f; use ::m::g; fn r1(p0: u8) {replace!(f(p0) => g(p0));}";
    assert_eq!(rule, Ok(expected.to_owned()));
}

#[test]
fn rule_has_the_generics_of_its_item() {
    let codemap = one_file("fn f<A, B>(a: A) where A: X, B: Y {a}");
    let other = one_file("a");
    let value = expr(36, 37, Vec::new());
    let item = Item {
        generics: Some(Generics {
            span: root(4, 10),
            where_predicates: vec![root(23, 27), root(29, 33)],
        }),
        children: Vec::new(),
    };
    let mut argument = expr(36, 37, Vec::new());
    argument.ty = Ty { text: "A".to_owned(), has_params: true };
    let placeholders = vec![Placeholder { expr: &argument, uses: vec![root(0, 1)] }];
    let none = Vec::new();
    let rule = build_rule(&codemap, &placeholders, &value, &item, &none, &other, &root(0, 1));
    let expected = "fn r1<A, B>(p0: A) where A: X, B: Y {replace!(p0 => p0);}";
    assert_eq!(rule, Ok(expected.to_owned()));
    let rule = build_rule(&codemap, &placeholders, &value, &item, &none, &other, &root(0, 9));
    assert_eq!(rule, Err(RuleError::NoSnippet));
}

#[test]
fn innermost_expression_is_found() {
    let inner = expr(4, 8, vec![Node::Expr(expr(4, 5, Vec::new()))]);
    let outer = expr(0, 10, vec![Node::Expr(expr(0, 3, Vec::new())), Node::Expr(inner)]);
    let body = Node::Body(Body { id: 3, children: vec![Node::Expr(outer)] });
    let nodes = vec![Node::Item(Item { generics: None, children: vec![body] })];
    let found = |lo: u32, hi: u32| {
        let mut finder = RuleFinder::new(root(lo, hi));
        assert_eq!(finder.visit_nodes(&nodes), Ok(()));
        match finder.candidate {
            Candidate::NotFound => None,
            Candidate::Expr(expr, body_id, _) => Some((expr.span.lo, expr.span.hi, body_id)),
        }
    };
    assert_eq!(found(6, 7), Some((4, 8, 3)));
    assert_eq!(found(2, 7), Some((0, 10, 3)));
    assert_eq!(found(4, 5), Some((4, 5, 3)));
    assert_eq!(found(11, 12), None);
}

#[test]
fn expressions_of_macros_are_looked_through() {
    let argument = expr(4, 8, Vec::new());
    let mut call = expr(0, 10, vec![Node::Expr(argument)]);
    call.span.ctxt = SyntaxContext::Expansion(Some(Box::new(root(0, 10))));
    let body = Node::Body(Body { id: 0, children: vec![Node::Expr(call)] });
    let nodes = vec![Node::Item(Item { generics: None, children: vec![body] })];
    let mut finder = RuleFinder::new(root(5, 6));
    assert_eq!(finder.visit_nodes(&nodes), Ok(()));
    assert!(matches!(finder.candidate, Candidate::Expr(e, 0, _) if e.span.lo == 4));
    let mut finder = RuleFinder::new(root(1, 6));
    assert_eq!(finder.visit_nodes(&nodes), Ok(()));
    assert!(matches!(finder.candidate, Candidate::NotFound));
}

#[test]
fn session_tries_one_command_line_after_the_other() {
    let mut session = Session::start("lib.rs", "fn b() {}".to_owned(), "fn a() {}", 2)
        .unwrap_or_else(|e| panic!("{}", e.message()));
    assert_eq!(session.version, Version::Modified);
    assert_eq!(session.args_index, 0);
    assert_eq!(session.state.changed_span, ChangedSpan::new(3, 5));
    assert_eq!(session.state.modified_file_name, "lib.rs");
    assert_eq!(session.compiled(), Ok(None));
    assert_eq!(session.version, Version::Modified);
    assert_eq!(session.args_index, 1);
    assert_eq!(session.compiled(), Err(SearchError::NoModifiedExpression));
}

#[test]
fn session_ends_when_the_change_stays() {
    let mut session = Session::start("lib.rs", "fn b() {}".to_owned(), "fn a() {}", 1)
        .unwrap_or_else(|e| panic!("{}", e.message()));
    session.version = Version::Original(ChangedSpan::new(4, 5));
    assert_eq!(session.compiled(), Ok(None));
    assert_eq!(session.version, Version::Modified);
    session.state.result = "the rule".to_owned();
    session.version = Version::Original(ChangedSpan::new(3, 5));
    assert_eq!(session.compiled(), Ok(Some("the rule".to_owned())));
}

#[test]
fn session_needs_a_change() {
    let started = Session::start("lib.rs", "fn a() {}".to_owned(), "fn a() {}", 1);
    assert_eq!(started.err(), Some(SearchError::NothingChanged));
}

#[test]
fn errors_tell_what_is_wrong() {
    assert_eq!(
        RuleError::NoSpanInTarget.message(),
        "We never found a span within the target span"
    );
    assert_eq!(SearchError::NothingChanged.message(), "Nothing appears to have changed");
}

#[test]
fn texts_are_ordered_by_their_bytes() {
    assert!(is_text_before("a", "b"));
    assert!(is_text_before("a", "aa"));
    assert!(is_text_before("Z", "a"));
    assert!(is_text_before("z", "ä"));
    assert!(!is_text_before("a", "a"));
    let mut list = Vec::new();
    for text in ["b", "a", "c", "b"] {
        insert_text(&mut list, &text.to_owned());
    }
    assert_eq!(list, vec!["a".to_owned(), "b".to_owned(), "c".to_owned()]);
    assert_eq!(join(&list, ", "), "a, b, c");
    assert_eq!(join(&Vec::new(), ", "), "");
}

#[test]
fn numbers_are_written_in_decimal() {
    let write = |number: usize| {
        let mut text = "p".to_owned();
        append_decimal(&mut text, number);
        text
    };
    assert_eq!(write(0), "p0");
    assert_eq!(write(10), "p10");
    assert_eq!(write(907), "p907");
}

#[test]
fn equal_keys_keep_their_order() {
    let mut items = vec!["a", "b", "c", "d", "e"];
    sort_by_keys(&mut items, &vec![2, 1, 2, 0, 1]);
    assert_eq!(items, vec!["d", "b", "e", "a", "c"]);
    let mut none: Vec<u8> = Vec::new();
    sort_by_keys(&mut none, &Vec::new());
    assert!(none.is_empty());
}

fn no_tokens(_: &str) -> TokenStream {
    TokenStream { trees: Vec::new() }
}

fn state(changed_span: ChangedSpan) -> FindRulesState {
    FindRulesState {
        modified_file_name: "lib.rs".to_owned(),
        modified_source: "0123456789".to_owned(),
        changed_span,
        result: String::new(),
        changed_side_state: None,
    }
}

fn crate_with(value: Expr) -> AnalysedCrate {
    let body = Node::Body(Body { id: 0, children: vec![Node::Expr(value)] });
    AnalysedCrate {
        codemap: one_file("0123456789"),
        nodes: vec![Node::Item(Item { generics: None, children: vec![body] })],
    }
}

#[test]
fn analysis_widens_the_change_to_an_expression() {
    let krate = crate_with(expr(1, 9, vec![Node::Expr(expr(3, 6, Vec::new()))]));
    let mut found = state(ChangedSpan::new(4, 5));
    assert_eq!(after_analysis(&krate, &no_tokens, &mut found), Ok(()));
    assert_eq!(found.changed_span, ChangedSpan::new(3, 4));
    assert!(found.changed_side_state.is_some());
    // Widened by what another version shows, and no rule yet.
    let krate = crate_with(expr(1, 9, Vec::new()));
    assert_eq!(after_analysis(&krate, &no_tokens, &mut found), Ok(()));
    assert_eq!(found.changed_span, ChangedSpan::new(1, 1));
    assert_eq!(found.result, "");
    // Now the change is an expression of this version.
    assert_eq!(after_analysis(&krate, &no_tokens, &mut found), Ok(()));
    assert_eq!(found.changed_span, ChangedSpan::new(1, 1));
    assert_eq!(found.result, "fn r1() {replace!(12345678 => 12345678);}");
}

#[test]
fn change_outside_the_file_is_not_found() {
    let krate = crate_with(expr(0, 10, Vec::new()));
    let mut too_long = state(ChangedSpan::new(11, 0));
    assert_eq!(after_analysis(&krate, &no_tokens, &mut too_long), Ok(()));
    assert_eq!(too_long.changed_span, ChangedSpan::new(11, 0));
    assert!(too_long.changed_side_state.is_none());
}

#[test]
fn spans_have_to_be_in_the_file() {
    let outside = Err(RuleError::SpanOutsideFile);
    let krate = crate_with(expr(0, 10, Vec::new()));
    let mut before_the_first = state(ChangedSpan::new(0, 11));
    assert_eq!(after_analysis(&krate, &no_tokens, &mut before_the_first), outside);
    assert_eq!(before_the_first.changed_span, ChangedSpan::new(0, 11));
    let krate = crate_with(expr(0, 20, Vec::new()));
    let mut found = state(ChangedSpan::new(4, 4));
    assert_eq!(after_analysis(&krate, &no_tokens, &mut found), outside);
}

#[test]
fn other_files_are_passed_over() {
    let krate = crate_with(expr(0, 10, Vec::new()));
    let mut elsewhere = state(ChangedSpan::new(4, 4));
    elsewhere.modified_file_name = "main.rs".to_owned();
    assert_eq!(after_analysis(&krate, &no_tokens, &mut elsewhere), Ok(()));
    assert_eq!(elsewhere.changed_span, ChangedSpan::new(4, 4));
    assert!(elsewhere.changed_side_state.is_none());
}

#[test]
fn code_from_nowhere_has_no_place_in_the_file() {
    let mut inner = expr(500, 510, Vec::new());
    inner.span.ctxt = SyntaxContext::Expansion(None);
    let krate = crate_with(expr(0, 10, vec![Node::Expr(inner)]));
    let mut found = state(ChangedSpan::new(4, 4));
    assert_eq!(
        after_analysis(&krate, &no_tokens, &mut found),
        Err(RuleError::NoSpanInTarget)
    );
    assert!(found.changed_side_state.is_none());
}

#[test]
fn byte_order_mark_is_no_part_of_the_source() {
    let krate = crate_with(expr(1, 9, Vec::new()));
    let mut found = state(ChangedSpan::new(1, 1));
    found.modified_source = "\u{feff}abcdefghij".to_owned();
    assert_eq!(after_analysis(&krate, &no_tokens, &mut found), Ok(()));
    assert_eq!(after_analysis(&krate, &no_tokens, &mut found), Ok(()));
    assert_eq!(found.result, "fn r1() {replace!(12345678 => bcdefghi);}");
    assert_eq!(found.modified_source.len(), 13);
}
