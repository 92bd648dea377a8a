use change_to_rule::candidate::{
    default_hash, populate_placeholder_map, PlaceholderCandidate, PlaceholderCandidateFinder,
};
use change_to_rule::codemap::{CodeMap, FileMap, FileName};
use change_to_rule::error::RuleError;
use change_to_rule::hir::{Expr, Node, Ty};
use change_to_rule::matcher::PlaceholderMatcher;
use change_to_rule::span::{RelativeSpan, Span, SyntaxContext};
use change_to_rule::token::{token_stream_hash, Delimiter, TokenStream, TokenTree};
use std::collections::HashMap;

/// Every letter is a token.
fn lex(text: &str) -> TokenStream {
    let letters = text.chars().filter(|c| !c.is_whitespace());
    TokenStream { trees: letters.map(|c| TokenTree::Token(c.to_string())).collect() }
}

fn token(text: &str) -> TokenTree {
    TokenTree::Token(text.to_owned())
}

fn expr(lo: u32, hi: u32, children: Vec<Expr>) -> Expr {
    Expr {
        span: Span::new(lo, hi, SyntaxContext::Root),
        ty: Ty { text: "i32".to_owned(), has_params: false },
        is_call: false,
        children: children.into_iter().map(Node::Expr).collect(),
    }
}

fn one_file(text: &str) -> CodeMap {
    CodeMap { files: vec![FileMap::new(FileName::Other, 0, text.to_owned())] }
}

fn find<'a>(
    codemap: &CodeMap,
    node: &'a Expr,
) -> Result<Vec<PlaceholderCandidate<&'a Expr>>, RuleError> {
    PlaceholderCandidateFinder::find_placeholder_candidates(codemap, &lex, node, |e: &'a Expr| {
        Ok(e)
    })
}

fn find_relative(codemap: &CodeMap, node: &Expr) -> Vec<PlaceholderCandidate<RelativeSpan>> {
    let file = &codemap.files[0];
    let found = PlaceholderCandidateFinder::find_placeholder_candidates(
        codemap,
        &lex,
        node,
        |e: &Expr| Ok(RelativeSpan::new(&e.span, file)),
    );
    match found {
        Ok(candidates) => candidates,
        Err(e) => panic!("{}", e.message()),
    }
}

/// The spans of the placeholders, each with those of its uses.
fn match_all(
    left: &CodeMap,
    left_expr: &Expr,
    right: &CodeMap,
    right_expr: &Expr,
) -> Vec<((u32, u32), Vec<(u32, u32)>)> {
    let others = find_relative(right, right_expr);
    let mut map = HashMap::new();
    populate_placeholder_map(&others, &mut map);
    let mut candidates = match find(left, left_expr) {
        Ok(candidates) => candidates,
        Err(e) => panic!("{}", e.message()),
    };
    let mut matcher = PlaceholderMatcher {
        codemap: left,
        lex: &lex,
        other_filemap: &right.files[0],
        other_candidates: map,
        placeholders_found: Vec::new(),
        used_placeholder_spans: Vec::new(),
    };
    assert!(matcher.find_placeholders(&mut candidates).is_ok());
    let ends = |s: &Span| (s.lo, s.hi);
    matcher
        .placeholders_found
        .iter()
        .map(|p| (ends(&p.expr.span), p.uses.iter().map(ends).collect()))
        .collect()
}

#[test]
fn new_candidate_is_empty() {
    let candidate = PlaceholderCandidate::new(7);
    assert_eq!(candidate.hash, 0);
    assert_eq!(candidate.data, 7);
    assert!(candidate.children.is_empty());
}

#[test]
fn hash_of_tokens_goes_by_their_number() {
    let two = TokenStream { trees: vec![token("a"), token("b")] };
    let other_two = TokenStream { trees: vec![token("c"), token("d")] };
    let grouped = TokenStream {
        trees: vec![TokenTree::Delimited(
            Delimiter::Paren,
            TokenStream { trees: vec![token("a"), token("b")] },
        )],
    };
    let three = TokenStream { trees: vec![token("a"), token("b"), token("c")] };
    assert_eq!(token_stream_hash(&two), token_stream_hash(&other_two));
    assert_eq!(token_stream_hash(&two), token_stream_hash(&grouped));
    assert_ne!(token_stream_hash(&two), token_stream_hash(&three));
    assert!(!two.eq_unspanned(&other_two));
    assert!(!two.eq_unspanned(&grouped));
    assert!(two.eq_unspanned(&lex("a b")));
}

#[test]
fn hash_of_candidates_goes_by_their_hashes() {
    let with_hash = |hash: u64| PlaceholderCandidate { hash, ..PlaceholderCandidate::new(()) };
    let a = default_hash(&vec![with_hash(1), with_hash(2)]);
    assert_eq!(a, default_hash(&vec![with_hash(1), with_hash(2)]));
    assert_ne!(a, default_hash(&vec![with_hash(2), with_hash(1)]));
    assert_ne!(a, default_hash(&vec![with_hash(1)]));
    // A candidate is hashed as its hash is.
    assert_eq!(default_hash(&with_hash(1)), default_hash(&1u64));
    assert_ne!(default_hash(&1u64), default_hash(&2u64));
}

#[test]
fn candidates_are_nested() {
    let codemap = one_file("ab cd");
    let root = expr(0, 5, vec![expr(0, 2, vec![expr(0, 1, vec![]), expr(1, 2, vec![])])]);
    let found = find(&codemap, &root).unwrap_or_else(|e| panic!("{}", e.message()));
    assert_eq!(found.len(), 1);
    assert_eq!(found[0].data.span.hi, 2);
    assert_eq!(found[0].children.len(), 2);
    assert_eq!(found[0].hash, default_hash(&found[0].children));
    assert_eq!(found[0].children[0].hash, token_stream_hash(&lex("a")));
}

#[test]
fn called_function_is_no_candidate() {
    let codemap = one_file("f(a)");
    let mut call = expr(0, 4, vec![expr(0, 1, vec![]), expr(2, 3, vec![])]);
    call.is_call = true;
    let found = find(&codemap, &call).unwrap_or_else(|e| panic!("{}", e.message()));
    assert_eq!(found.len(), 1);
    assert_eq!(found[0].data.span.lo, 2);
}

#[test]
fn candidate_without_text_is_an_error() {
    let codemap = one_file("ab");
    let root = expr(0, 9, vec![expr(5, 9, vec![])]);
    assert_eq!(find(&codemap, &root).err(), Some(RuleError::NoSnippet));
}

#[test]
fn data_is_asked_of_the_root_too() {
    let codemap = one_file("ab");
    let root = expr(0, 2, vec![]);
    let found: Result<Vec<PlaceholderCandidate<u8>>, RuleError> =
        PlaceholderCandidateFinder::find_placeholder_candidates(&codemap, &lex, &root, |_: &Expr| {
            Err(RuleError::NoSpanInTarget)
        });
    assert_eq!(found.err(), Some(RuleError::NoSpanInTarget));
}

#[test]
fn map_holds_all_candidates_by_hash() {
    let codemap = one_file("ab cd");
    let root = expr(
        0,
        5,
        vec![expr(0, 2, vec![expr(0, 1, vec![]), expr(1, 2, vec![])]), expr(4, 5, vec![])],
    );
    let found = find(&codemap, &root).unwrap_or_else(|e| panic!("{}", e.message()));
    let mut map = HashMap::new();
    populate_placeholder_map(&found, &mut map);
    assert_eq!(map.len(), 2);
    let single = &map[&token_stream_hash(&lex("x"))];
    let starts: Vec<u32> = single.iter().map(|c| c.data.span.lo).collect();
    assert_eq!(starts, vec![0, 1, 4]);
}

#[test]
fn longer_candidates_are_matched_first() {
    let left = one_file("b ab");
    let left_expr = expr(
        0,
        4,
        vec![expr(0, 1, vec![]), expr(2, 4, vec![expr(2, 3, vec![]), expr(3, 4, vec![])])],
    );
    let right = one_file("ab b");
    let right_expr = expr(
        0,
        4,
        vec![expr(0, 2, vec![expr(0, 1, vec![]), expr(1, 2, vec![])]), expr(3, 4, vec![])],
    );
    assert_eq!(
        match_all(&left, &left_expr, &right, &right_expr),
        vec![((2, 4), vec![(0, 2)]), ((0, 1), vec![(3, 4)])]
    );
}

#[test]
fn places_in_use_do_not_overlap() {
    // The second `ab` finds no free place of its own, and neither do its letters.
    let left = one_file("ab ab");
    let letter = |at: u32| expr(at, at + 1, vec![]);
    let pair = |at: u32| expr(at, at + 2, vec![letter(at), letter(at + 1)]);
    let left_expr = expr(0, 5, vec![pair(0), pair(3)]);
    let right = one_file("ab");
    let right_expr = expr(0, 2, vec![pair(0)]);
    assert_eq!(
        match_all(&left, &left_expr, &right, &right_expr),
        vec![((0, 2), vec![(0, 2)])]
    );
}

#[test]
fn parts_are_matched_where_the_whole_is_not() {
    let left = one_file("ab");
    let left_expr = expr(0, 2, vec![expr(0, 2, vec![expr(0, 1, vec![]), expr(1, 2, vec![])])]);
    let right = one_file("b c");
    let right_expr = expr(0, 3, vec![expr(0, 1, vec![]), expr(2, 3, vec![])]);
    assert_eq!(
        match_all(&left, &left_expr, &right, &right_expr),
        vec![((1, 2), vec![(0, 1)])]
    );
}

#[test]
fn candidate_outside_the_changed_file_is_an_error() {
    let left = one_file("a");
    let left_expr = expr(0, 1, vec![expr(0, 1, vec![])]);
    let mut candidates = find(&left, &left_expr).unwrap_or_else(|e| panic!("{}", e.message()));
    let far = vec![PlaceholderCandidate {
        hash: candidates[0].hash,
        ..PlaceholderCandidate::new(RelativeSpan { start: 5, end: 6 })
    }];
    let mut map = HashMap::new();
    populate_placeholder_map(&far, &mut map);
    let right = FileMap::new(FileName::Other, 0, "a".to_owned());
    let mut matcher = PlaceholderMatcher {
        codemap: &left,
        lex: &lex,
        other_filemap: &right,
        other_candidates: map,
        placeholders_found: Vec::new(),
        used_placeholder_spans: Vec::new(),
    };
    assert_eq!(matcher.find_placeholders(&mut candidates), Err(RuleError::SpanOutsideFile));
}

#[test]
fn candidates_are_left_in_the_order_of_the_search() {
    let letter = |at: u32| expr(at, at + 1, vec![]);
    let pair = |at: u32| expr(at, at + 2, vec![letter(at), letter(at + 1)]);
    // `a`, `b cd` with `b` and `cd` in it, and `e fg` with `e` and `fg` in it.
    let left = one_file("a b cd e fg");
    let left_expr = expr(
        0,
        11,
        vec![
            letter(0),
            expr(2, 6, vec![letter(2), pair(4)]),
            expr(7, 11, vec![letter(7), pair(9)]),
        ],
    );
    let right = one_file("e fg");
    let right_expr = expr(0, 4, vec![expr(0, 4, vec![letter(0), pair(2)])]);
    let others = find_relative(&right, &right_expr);
    let mut map = HashMap::new();
    populate_placeholder_map(&others, &mut map);
    let mut candidates = find(&left, &left_expr).unwrap_or_else(|e| panic!("{}", e.message()));
    let mut matcher = PlaceholderMatcher {
        codemap: &left,
        lex: &lex,
        other_filemap: &right.files[0],
        other_candidates: map,
        placeholders_found: Vec::new(),
        used_placeholder_spans: Vec::new(),
    };
    assert!(matcher.find_placeholders(&mut candidates).is_ok());
    let starts = |list: &Vec<PlaceholderCandidate<&Expr>>| {
        list.iter().map(|c| c.data.span.lo).collect::<Vec<u32>>()
    };
    assert_eq!(starts(&candidates), vec![2, 7, 0]);
    // Nothing matched `b cd`, so that what is within it was sorted too.
    assert_eq!(starts(&candidates[0].children), vec![4, 2]);
    // `e fg` was matched, and what is within it was not looked at.
    assert_eq!(starts(&candidates[1].children), vec![7, 9]);
    assert_eq!(matcher.placeholders_found.len(), 1);
}
