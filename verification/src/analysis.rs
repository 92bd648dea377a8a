use crate::candidate::{
    all_candidates, candidates_view, candidates_within, filed, is_data_of, map_view,
    populate_placeholder_map, CandidateView, PlaceholderCandidate, PlaceholderCandidateFinder,
};
use crate::codemap::{named_file, without_mark, CodeMap, FileMap, FileView};
use crate::error::RuleError;
use crate::hir::{Expr, Item, Node};
use crate::laws::change::takes_in;
use crate::laws::search::law_found_expression_is_innermost;
use crate::matcher::{
    matched, placeholders_view, MatchContext, Matches, Placeholder, PlaceholderMatcher,
    PlaceholderView,
};
use crate::order::{arranged, lemma_order_exists, sort_by_keys};
use crate::paths::{referenced_in, ReferencedPathsFinder};
use crate::rule::{any_type_params, build_rule, rule};
use crate::rule_finder::{found_in, Candidate, RuleFinder};
use crate::span::{find_span_within_span, ChangedSpan, RelativeSpan, Span, SyntaxContext};
use crate::text::texts;
use crate::token::{is_lexer, is_lexing_of, Lexing, TokenStream};
use std::collections::HashMap;
use vstd::prelude::*;
use vstd::std_specs::hash::*;

verus! {

/// A crate that was compiled from one version of its sources.
pub struct AnalysedCrate {
    pub codemap: CodeMap,
    pub nodes: Vec<Node>,
}

/// What is known of the changed version of the code.
pub struct ChangedSideState {
    pub candidate_placeholders: Vec<PlaceholderCandidate<RelativeSpan>>,
    pub required_paths: Vec<String>,
}

/// What is known of the changed version of the code, whatever holds it.
pub struct ChangedSideView {
    pub candidate_placeholders: Seq<CandidateView<RelativeSpan>>,
    pub required_paths: Set<Seq<char>>,
}

impl View for ChangedSideState {
    type V = ChangedSideView;

    open spec fn view(&self) -> ChangedSideView {
        ChangedSideView {
            candidate_placeholders: candidates_view(self.candidate_placeholders@),
            required_paths: texts(self.required_paths@).to_set(),
        }
    }
}

/// How far the search for a rule has come.
pub struct FindRulesState {
    pub modified_file_name: String,
    pub modified_source: String,
    pub changed_span: ChangedSpan,
    pub result: String,
    pub changed_side_state: Option<ChangedSideState>,
}

/// How far the search for a rule has come, whatever holds it.
pub struct FindRulesView {
    pub modified_file_name: Seq<char>,
    pub modified_source: Seq<char>,
    pub changed_span: ChangedSpan,
    pub result: Seq<char>,
    pub changed_side: Option<ChangedSideView>,
}

impl View for FindRulesState {
    type V = FindRulesView;

    open spec fn view(&self) -> FindRulesView {
        FindRulesView {
            modified_file_name: self.modified_file_name@,
            modified_source: self.modified_source@,
            changed_span: self.changed_span,
            result: self.result@,
            changed_side: match self.changed_side_state {
                Some(side) => Some(side@),
                None => None,
            },
        }
    }
}

/// Keeps of an expression where in the file it comes from.
pub open spec fn relative_span_data(filemap: FileView) -> spec_fn(Expr) -> Result<
    RelativeSpan,
    RuleError,
> {
    |e: Expr|
        match RelativeSpan::of(e.span, filemap) {
            Some(span) => Ok(span),
            None => Err(RuleError::NoSpanInTarget),
        }
}

/// Keeps the expression itself.
pub open spec fn expr_data<'a>() -> spec_fn(Expr) -> Result<&'a Expr, RuleError> {
    |e: Expr| Ok(&e)
}

pub open spec fn position_keys(placeholders: Seq<PlaceholderView>) -> Seq<u32> {
    Seq::new(placeholders.len(), |i: int| placeholders[i].expr.span.lo)
}

/// The placeholders in the order in which they appear in the original code.
pub open spec fn by_position(placeholders: Seq<PlaceholderView>) -> Seq<PlaceholderView> {
    arranged(placeholders, position_keys(placeholders))
}

/// The changed file, by itself.
pub open spec fn lone_file(modified_source: Seq<char>) -> FileView {
    FileView { name: None, start_pos: 0, src: without_mark(modified_source) }
}

/// What placeholders are looked for in.
pub open spec fn match_context(
    codemap: Seq<FileView>,
    lx: Lexing,
    changed_side: ChangedSideView,
    modified_source: Seq<char>,
) -> MatchContext {
    MatchContext {
        codemap,
        other_filemap: lone_file(modified_source),
        other_candidates: filed(
            Map::empty(),
            all_candidates(changed_side.candidate_placeholders),
        ),
        lex: lx,
    }
}

/// The rule that turns the expression `expr` of the original code into the changed code.
pub open spec fn rule_of_change(
    codemap: Seq<FileView>,
    lx: Lexing,
    changed_side: ChangedSideView,
    expr: Expr,
    changed_span: ChangedSpan,
    modified_source: Seq<char>,
    item: Item,
) -> Result<Seq<char>, RuleError> {
    let other = lone_file(modified_source);
    match candidates_within(expr, codemap, lx, expr_data()) {
        Err(e) => Err(e),
        Ok(candidates) => if !other.wf() || !changed_span.has_positions(other) {
            Err(RuleError::SpanOutsideFile)
        } else {
            match matched(
                match_context(codemap, lx, changed_side, modified_source),
                candidates,
                Matches { found: Seq::empty(), used: Seq::empty() },
            ) {
                Err(e) => Err(e),
                Ok(matches) => rule(
                    codemap,
                    by_position(matches.found),
                    expr,
                    item,
                    changed_side.required_paths,
                    seq![other],
                    changed_span.at(other),
                ),
            }
        },
    }
}

fn sort_by_position(placeholders: &mut Vec<Placeholder>)
    ensures
        placeholders_view(final(placeholders)@) == by_position(
            placeholders_view(old(placeholders)@),
        ),
{
    let ghost views = placeholders_view(placeholders@);
    let mut keys: Vec<u32> = Vec::new();
    let mut k: usize = 0;
    while k < placeholders.len()
        invariant
            k <= placeholders.len(),
            *placeholders == *old(placeholders),
            views == placeholders_view(placeholders@),
            keys@ == position_keys(views).take(k as int),
        decreases placeholders.len() - k,
    {
        keys.push(placeholders[k].expr.span.lo);
        proof {
            assert(views[k as int] == placeholders@[k as int]@);
            assert(keys@ =~= position_keys(views).take(k + 1));
        }
        k = k + 1;
    }
    assert(keys@ =~= position_keys(views));
    sort_by_keys(placeholders, &keys);
    proof {
        lemma_order_exists(position_keys(views));
        assert(placeholders_view(placeholders@) =~= by_position(views));
    }
}

/// The rule that turns the expression `expr` of the original code into the changed code.
pub fn analyse_original_source<'a, L: Fn(&str) -> TokenStream>(
    codemap: &CodeMap,
    lex: &L,
    changed_side_state: &ChangedSideState,
    expr: &'a Expr,
    changed_span: &ChangedSpan,
    modified_source: String,
    item: &Item,
) -> (r: Result<String, RuleError>)
    requires
        is_lexer(*lex),
    ensures
        forall|lx: Lexing| #[trigger]
            is_lexing_of(lx, *lex) ==> match rule_of_change(
                codemap@,
                lx,
                changed_side_state@,
                *expr,
                *changed_span,
                modified_source@,
                *item,
            ) {
                Ok(text) => r is Ok && r->Ok_0@ == text,
                Err(e) => r is Err && r->Err_0 == e,
            },
{
    broadcast use group_hash_axioms;

    let mut others_by_hash: HashMap<u64, Vec<&PlaceholderCandidate<RelativeSpan>>> = HashMap::new();
    assert(map_view(others_by_hash@) =~= Map::empty());
    populate_placeholder_map(&changed_side_state.candidate_placeholders, &mut others_by_hash);
    let identity = |child_expr: &'a Expr| -> (d: Result<&'a Expr, RuleError>)
        ensures
            d == Ok::<&'a Expr, RuleError>(child_expr),
        { Ok(child_expr) };
    assert(is_data_of(expr_data(), identity));
    let mut candidates = match PlaceholderCandidateFinder::find_placeholder_candidates(
        codemap,
        lex,
        expr,
        identity,
    ) {
        Err(e) => {
            return Err(e);
        },
        Ok(candidates) => candidates,
    };
    let other_codemap = CodeMap { files: vec![FileMap::from_text(0, modified_source)] };
    let other_filemap = &other_codemap.files[0];
    assert(other_codemap@ =~= seq![lone_file(modified_source@)]);
    if !changed_span.can_be_placed(other_filemap) {
        return Err(RuleError::SpanOutsideFile);
    }
    let replacement_span = changed_span.to_span(other_filemap);
    let mut matcher = PlaceholderMatcher {
        codemap,
        lex,
        other_filemap,
        other_candidates: others_by_hash,
        placeholders_found: Vec::new(),
        used_placeholder_spans: Vec::new(),
    };
    assert(matcher.matches() =~= (Matches { found: Seq::empty(), used: Seq::empty() }));
    match matcher.find_placeholders(&mut candidates) {
        Err(e) => {
            return Err(e);
        },
        Ok(_) => {},
    }
    let mut placeholders = matcher.placeholders_found;
    sort_by_position(&mut placeholders);
    if any_type_params(&placeholders) && item.generics.is_none() {
        return Err(RuleError::NoGenerics);
    }
    build_rule(
        codemap,
        &placeholders,
        expr,
        item,
        &changed_side_state.required_paths,
        &other_codemap,
        &replacement_span,
    )
}

/// Whether the two ends of `span` are in the file.
pub open spec fn is_in_file(span: Span, filemap: FileView) -> bool {
    filemap.start_pos <= span.lo && span.hi <= filemap.end()
}

/// The changed part of a file in one version of the code, with the expression that it belongs to
/// and the item around that: the innermost expression around what is known to have changed.
pub open spec fn found_change<'a>(
    changed_span: ChangedSpan,
    filemap: FileView,
    nodes: Seq<Node>,
) -> Result<Option<(ChangedSpan, &'a Expr, &'a Item)>, RuleError> {
    if !filemap.wf() || !changed_span.has_positions(filemap) {
        Err(RuleError::SpanOutsideFile)
    } else {
        match found_in(nodes, changed_span.at(filemap), None, None, Candidate::NotFound) {
            Err(e) => Err(e),
            Ok(Candidate::NotFound) => Ok(None),
            Ok(Candidate::Expr(expr, _, item)) => if is_in_file(expr.span, filemap) {
                Ok(Some((ChangedSpan::around(expr.span, filemap), expr, item)))
            } else {
                Err(RuleError::SpanOutsideFile)
            },
        }
    }
}

/// How far the search has come once the changed expression `expr` was found in one version of the
/// code.
pub open spec fn advanced(
    state: FindRulesView,
    codemap: Seq<FileView>,
    lx: Lexing,
    filemap: FileView,
    changed_span: ChangedSpan,
    expr: Expr,
    item: Item,
) -> Result<FindRulesView, RuleError> {
    match state.changed_side {
        None => match candidates_within(expr, codemap, lx, relative_span_data(filemap)) {
            Err(e) => Err(e),
            Ok(candidate_placeholders) => Ok(
                FindRulesView {
                    changed_span,
                    changed_side: Some(
                        ChangedSideView {
                            candidate_placeholders,
                            required_paths: referenced_in(expr.children@),
                        },
                    ),
                    ..state
                },
            ),
        },
        Some(changed_side) => if state.changed_span != changed_span {
            Ok(FindRulesView { changed_span, ..state })
        } else {
            match rule_of_change(
                codemap,
                lx,
                changed_side,
                expr,
                changed_span,
                state.modified_source,
                item,
            ) {
                Err(e) => Err(e),
                Ok(result) => Ok(FindRulesView { result, ..state }),
            }
        },
    }
}

/// The changed part of the file that is searched for in one version of the code, as `found_change`
/// gives it. A crate may do without that file.
pub open spec fn located<'a>(state: FindRulesView, krate: AnalysedCrate) -> Result<
    Option<(ChangedSpan, &'a Expr, &'a Item)>,
    RuleError,
> {
    match named_file(krate.codemap@, state.modified_file_name) {
        None => Ok(None),
        Some(i) => found_change(state.changed_span, krate.codemap@[i], krate.nodes@),
    }
}

/// How far the search has come once one version of the code was analysed. The first version in
/// which the changed expression is found is the changed one: it gives the candidates for
/// placeholders and the paths that the changed code needs. After that a version either shows that
/// the change takes in more of the file, or it gives a rule.
pub open spec fn analysed(state: FindRulesView, krate: AnalysedCrate, lx: Lexing) -> Result<
    FindRulesView,
    RuleError,
> {
    match located(state, krate) {
        Err(e) => Err(e),
        Ok(None) => Ok(state),
        Ok(Some((changed_span, expr, item))) => advanced(
            state,
            krate.codemap@,
            lx,
            krate.codemap@[named_file(krate.codemap@, state.modified_file_name)->0],
            changed_span,
            *expr,
            *item,
        ),
    }
}

/// Finds the changed expression in one version of the code.
fn find_change<'a>(changed_span: &ChangedSpan, filemap: &FileMap, nodes: &'a Vec<Node>) -> (r:
    Result<Option<(ChangedSpan, &'a Expr, &'a Item)>, RuleError>)
    ensures
        r == found_change(*changed_span, filemap@, nodes@),
        r matches Ok(Some((wide, _, _))) ==> takes_in(wide, *changed_span),
{
    if !changed_span.can_be_placed(filemap) {
        return Err(RuleError::SpanOutsideFile);
    }
    let span = changed_span.to_span(filemap);
    proof {
        law_found_expression_is_innermost(nodes@, span);
    }
    let mut rule_finder = RuleFinder::new(span);
    match rule_finder.visit_nodes(nodes) {
        Err(e) => {
            return Err(e);
        },
        Ok(_) => {},
    }
    match rule_finder.candidate {
        Candidate::NotFound => Ok(None),
        Candidate::Expr(expr, _, item) => {
            if filemap.start_pos <= expr.span.lo && expr.span.hi <= filemap.end_pos() {
                Ok(Some((ChangedSpan::from_span(&expr.span, filemap), expr, item)))
            } else {
                Err(RuleError::SpanOutsideFile)
            }
        },
    }
}

/// What the changed version of the code tells: the candidates for placeholders in `expr`, and the
/// paths that it needs.
fn analyse_changed_source<'a, L: Fn(&str) -> TokenStream>(
    codemap: &CodeMap,
    lex: &L,
    filemap: &FileMap,
    expr: &'a Expr,
) -> (r: Result<ChangedSideState, RuleError>)
    requires
        is_lexer(*lex),
        filemap@.wf(),
    ensures
        forall|lx: Lexing| #[trigger]
            is_lexing_of(lx, *lex) ==> match candidates_within(
                *expr,
                codemap@,
                lx,
                relative_span_data(filemap@),
            ) {
                Ok(candidates) => r is Ok && r->Ok_0@.candidate_placeholders == candidates
                    && r->Ok_0@.required_paths == referenced_in(expr.children@),
                Err(e) => r is Err && r->Err_0 == e,
            },
{
    let file_span = Span::new(filemap.start_pos, filemap.end_pos(), SyntaxContext::Root);
    let relative = |child_expr: &'a Expr| -> (d: Result<RelativeSpan, RuleError>)
        ensures
            d == relative_span_data(filemap@)(*child_expr),
        {
            match find_span_within_span(&child_expr.span, &file_span) {
                None => Err(RuleError::NoSpanInTarget),
                Some(_) => Ok(RelativeSpan::new(&child_expr.span, filemap)),
            }
        };
    assert(is_data_of(relative_span_data(filemap@), relative));
    match PlaceholderCandidateFinder::find_placeholder_candidates(codemap, lex, expr, relative) {
        Err(e) => Err(e),
        Ok(candidate_placeholders) => Ok(
            ChangedSideState {
                candidate_placeholders,
                required_paths: ReferencedPathsFinder::paths_in_expr(expr),
            },
        ),
    }
}

/// Goes on with the search once one version of the code was compiled.
pub fn after_analysis<L: Fn(&str) -> TokenStream>(
    krate: &AnalysedCrate,
    lex: &L,
    find_rules_state: &mut FindRulesState,
) -> (r: Result<(), RuleError>)
    requires
        is_lexer(*lex),
    ensures
        forall|lx: Lexing| #[trigger]
            is_lexing_of(lx, *lex) ==> match analysed(old(find_rules_state)@, *krate, lx) {
                Ok(state) => r is Ok && final(find_rules_state)@ == state,
                Err(e) => r is Err && r->Err_0 == e,
            },
        match located(old(find_rules_state)@, *krate) {
            Err(e) => r is Err && r->Err_0 == e,
            Ok(None) => r is Ok && *final(find_rules_state) == *old(find_rules_state),
            Ok(Some((changed_span, _, _))) => r is Ok ==> final(find_rules_state).changed_span
                == changed_span && final(find_rules_state).changed_side_state is Some,
        },
        takes_in(final(find_rules_state).changed_span, old(find_rules_state).changed_span),
        final(find_rules_state).modified_file_name == old(find_rules_state).modified_file_name,
        final(find_rules_state).modified_source == old(find_rules_state).modified_source,
        old(find_rules_state).changed_side_state is Some
            ==> final(find_rules_state).changed_side_state
            == old(find_rules_state).changed_side_state,
        r is Err ==> *final(find_rules_state) == *old(find_rules_state),
{
    let maybe_file = krate.codemap.get_filemap(find_rules_state.modified_file_name.as_str());
    let filemap = match maybe_file {
        None => {
            return Ok(());
        },
        Some(i) => &krate.codemap.files[i],
    };
    let (new_changed_span, expr, item) = match find_change(
        &find_rules_state.changed_span,
        filemap,
        &krate.nodes,
    ) {
        Err(e) => {
            return Err(e);
        },
        Ok(None) => {
            return Ok(());
        },
        Ok(Some(found)) => found,
    };
    match &find_rules_state.changed_side_state {
        Some(changed_side_state) => {
            if find_rules_state.changed_span != new_changed_span {
                find_rules_state.changed_span = new_changed_span;
            } else {
                match analyse_original_source(
                    &krate.codemap,
                    lex,
                    changed_side_state,
                    expr,
                    &find_rules_state.changed_span,
                    find_rules_state.modified_source.clone(),
                    item,
                ) {
                    Err(e) => {
                        return Err(e);
                    },
                    Ok(rule) => {
                        find_rules_state.result = rule;
                    },
                }
            }
        },
        None => {
            match analyse_changed_source(&krate.codemap, lex, filemap, expr) {
                Err(e) => {
                    return Err(e);
                },
                Ok(changed_side_state) => {
                    find_rules_state.changed_span = new_changed_span;
                    find_rules_state.changed_side_state = Some(changed_side_state);
                },
            }
        },
    }
    Ok(())
}

} // verus!
