use crate::analysis::{
    analysed, by_position, expr_data, located, lone_file, match_context, relative_span_data,
    rule_of_change, AnalysedCrate, ChangedSideView, FindRulesView,
};
use crate::candidate::{candidates_within, CandidateView, DataOf};
use crate::codemap::{named_file, FileView};
use crate::error::RuleError;
use crate::hir::{Expr, Item, Node};
use crate::laws::ordering::{are_in_order_of_code, law_placeholders_go_by_start_of_code};
use crate::laws::place::law_file_is_found_by_path;
use crate::laws::tree::{
    is_hit, is_last_hit, is_nearest_item, is_outside_bodies, is_outside_items,
    law_imports_are_the_named_paths, law_search_finds_expression_with_nearest_owners, node_at,
};
use crate::laws::wording::is_named_in;
use crate::matcher::{matched, Matches, PlaceholderView};
use crate::paths::referenced_in;
use crate::rule::rule;
use crate::rule_finder::{found_in, Candidate};
use crate::span::{ChangedSpan, RelativeSpan, Span};
use crate::token::Lexing;
use vstd::prelude::*;
use vstd::utf8::*;

verus! {

/// Whether file number `i` is the first with a path.
pub open spec fn is_first_with_path(files: Seq<FileView>, path: Seq<char>, i: int) -> bool {
    &&& 0 <= i < files.len()
    &&& files[i].name == Some(path)
    &&& forall|j: int| 0 <= j < i ==> (#[trigger] files[j]).name != Some(path)
}

/// Whether a part of a file that is given by what stands before and behind it has positions that
/// can be written down.
pub open spec fn can_be_placed(changed: ChangedSpan, file: FileView) -> bool {
    &&& file.start_pos + encode_utf8(file.src).len() <= u32::MAX
    &&& file.start_pos + changed.common_prefix <= u32::MAX
    &&& changed.common_suffix <= file.start_pos + encode_utf8(file.src).len()
}

/// Whether a span lies in a file, and is what stands before and behind the changed part leave of
/// it.
pub open spec fn is_just(changed: ChangedSpan, span: Span, file: FileView) -> bool {
    &&& file.start_pos <= span.lo
    &&& span.hi <= file.start_pos + encode_utf8(file.src).len()
    &&& changed.common_prefix == span.lo - file.start_pos
    &&& changed.common_suffix == file.start_pos + encode_utf8(file.src).len() - span.hi
}

/// Whether an expression, with the nearest item around it, is the last one that was written around
/// a part of a file.
pub open spec fn is_found(nodes: Seq<Node>, changed: Span, expr: Expr, item: Item) -> bool {
    exists|route: Seq<int>|
        {
            &&& #[trigger] is_last_hit(nodes, route, changed)
            &&& node_at(nodes, route) == Some(Node::Expr(expr))
            &&& is_nearest_item(nodes, route, item)
        }
}

/// The changed part that a version of the code shows is just the expression that is found around
/// what was known to have changed. Nothing is shown where the code does without the file or no
/// expression was written around the change. The search fails only where a part of the file has no
/// positions, or an expression around the change has no owner or does not lie in the file.
pub proof fn law_version_shows_expression_around_change(state: FindRulesView, krate: AnalysedCrate)
    ensures
        match located(state, krate) {
            Ok(Some((found, expr, item))) => exists|i: int|
                {
                    &&& #[trigger] is_first_with_path(
                        krate.codemap@,
                        state.modified_file_name,
                        i,
                    )
                    &&& can_be_placed(state.changed_span, krate.codemap@[i])
                    &&& is_found(
                        krate.nodes@,
                        state.changed_span.at(krate.codemap@[i]),
                        *expr,
                        *item,
                    )
                    &&& is_just(found, expr.span, krate.codemap@[i])
                },
            Ok(None) => forall|i: int| #[trigger]
                is_first_with_path(krate.codemap@, state.modified_file_name, i) ==> {
                    &&& can_be_placed(state.changed_span, krate.codemap@[i])
                    &&& forall|route: Seq<int>|
                        !#[trigger] is_hit(
                            krate.nodes@,
                            route,
                            state.changed_span.at(krate.codemap@[i]),
                        )
                },
            Err(e) => exists|i: int|
                {
                    let file = krate.codemap@[i];
                    &&& #[trigger] is_first_with_path(
                        krate.codemap@,
                        state.modified_file_name,
                        i,
                    )
                    &&& {
                        ||| e is SpanOutsideFile && !can_be_placed(state.changed_span, file)
                        ||| e is OutsideBody && can_be_placed(state.changed_span, file) && exists|
                            route: Seq<int>| #[trigger]
                            is_hit(krate.nodes@, route, state.changed_span.at(file)) && (
                            is_outside_items(krate.nodes@, route) || is_outside_bodies(
                                krate.nodes@,
                                route,
                            ))
                        ||| e is SpanOutsideFile && can_be_placed(state.changed_span, file)
                            && exists|expr: Expr, item: Item|
                            {
                                &&& #[trigger] is_found(
                                    krate.nodes@,
                                    state.changed_span.at(file),
                                    expr,
                                    item,
                                )
                                &&& !(file.start_pos <= expr.span.lo && expr.span.hi
                                    <= file.start_pos + encode_utf8(file.src).len())
                            }
                    }
                },
        },
{
    law_file_is_found_by_path(krate.codemap@, state.modified_file_name);
    let files = krate.codemap@;
    if let Some(i) = named_file(files, state.modified_file_name) {
        let file = files[i];
        let target = state.changed_span.at(file);
        assert(is_first_with_path(files, state.modified_file_name, i));
        assert forall|j: int| #[trigger]
            is_first_with_path(files, state.modified_file_name, j) implies j == i by {
            if j < i {
                assert(files[j].name != Some(state.modified_file_name));
            } else if i < j {
                assert(files[i].name != Some(state.modified_file_name));
            }
        }
        law_search_finds_expression_with_nearest_owners(krate.nodes@, target);
        if let Ok(Candidate::Expr(expr, id, item)) = found_in(
            krate.nodes@,
            target,
            None,
            None,
            Candidate::NotFound,
        ) {
            assert(is_found(krate.nodes@, target, *expr, *item));
        }
    }
}

/// Whether all is the same but for the part that is known to have changed.
pub open spec fn differ_in_change_only(a: FindRulesView, b: FindRulesView) -> bool {
    &&& a.modified_file_name == b.modified_file_name
    &&& a.modified_source == b.modified_source
    &&& a.changed_side == b.changed_side
    &&& a.result == b.result
}

/// Whether this is kept of each expression: the place in the file that it comes from.
pub open spec fn keeps_places(data: DataOf<RelativeSpan>, file: FileView) -> bool {
    forall|e: Expr| #[trigger]
        data(e) == match RelativeSpan::of(e.span, file) {
            Some(place) => Ok::<RelativeSpan, RuleError>(place),
            None => Err::<RelativeSpan, RuleError>(RuleError::NoSpanInTarget),
        }
}

/// Whether the expression itself is kept of each expression.
pub open spec fn keeps_exprs<'a>(data: DataOf<&'a Expr>) -> bool {
    forall|e: Expr| #[trigger] data(e) == Ok::<&'a Expr, RuleError>(&e)
}

/// Where a version shows nothing, nothing is learned from it. The first version that shows the
/// change is the changed one: its candidates and the paths that it names are kept. A later version
/// that shows another changed part only replaces the changed part. One that shows the same gives
/// the rule of the change.
pub proof fn law_versions_are_learned_from_in_turn(
    state: FindRulesView,
    krate: AnalysedCrate,
    lx: Lexing,
)
    ensures
        match located(state, krate) {
            Err(e) => analysed(state, krate, lx) == Err::<FindRulesView, RuleError>(e),
            Ok(None) => analysed(state, krate, lx) == Ok::<FindRulesView, RuleError>(state),
            Ok(Some((found, expr, item))) => match state.changed_side {
                None => exists|data: DataOf<RelativeSpan>, i: int|
                    {
                        &&& #[trigger] is_first_with_path(
                            krate.codemap@,
                            state.modified_file_name,
                            i,
                        )
                        &&& #[trigger] keeps_places(data, krate.codemap@[i])
                        &&& match analysed(state, krate, lx) {
                            Err(e) => candidates_within(*expr, krate.codemap@, lx, data) == Err::<
                                Seq<CandidateView<RelativeSpan>>,
                                RuleError,
                            >(e),
                            Ok(next) => {
                                &&& next.changed_span == found
                                &&& next.modified_file_name == state.modified_file_name
                                &&& next.modified_source == state.modified_source
                                &&& next.result == state.result
                                &&& next.changed_side matches Some(side)
                                &&& candidates_within(*expr, krate.codemap@, lx, data) == Ok::<
                                    Seq<CandidateView<RelativeSpan>>,
                                    RuleError,
                                >(side.candidate_placeholders)
                                &&& forall|text: Seq<char>| #[trigger]
                                    side.required_paths.contains(text) <==> is_named_in(*expr, text)
                            },
                        }
                    },
                Some(side) => if found != state.changed_span {
                    &&& analysed(state, krate, lx) matches Ok(next)
                    &&& next.changed_span == found
                    &&& differ_in_change_only(next, state)
                } else {
                    match rule_of_change(
                        krate.codemap@,
                        lx,
                        side,
                        *expr,
                        found,
                        state.modified_source,
                        *item,
                    ) {
                        Err(e) => analysed(state, krate, lx) == Err::<FindRulesView, RuleError>(e),
                        Ok(text) => {
                            &&& analysed(state, krate, lx) matches Ok(next)
                            &&& next.result == text
                            &&& next.changed_span == state.changed_span
                            &&& next.changed_side == state.changed_side
                            &&& next.modified_file_name == state.modified_file_name
                            &&& next.modified_source == state.modified_source
                        },
                    }
                },
            },
        },
{
    if let Ok(Some((found, expr, item))) = located(state, krate) {
        if state.changed_side is None {
            law_file_is_found_by_path(krate.codemap@, state.modified_file_name);
            let i = named_file(krate.codemap@, state.modified_file_name)->0;
            let data = relative_span_data(krate.codemap@[i]);
            assert(is_first_with_path(krate.codemap@, state.modified_file_name, i));
            assert(keeps_places(data, krate.codemap@[i]));
            assert forall|text: Seq<char>| #[trigger]
                referenced_in(expr.children@).contains(text) <==> is_named_in(
                *expr,
                text,
            ) by {
                law_imports_are_the_named_paths(expr.children@, text);
            }
        }
    }
}

/// Whether nothing was found yet.
pub open spec fn is_nothing(matches: Matches) -> bool {
    matches.found.len() == 0 && matches.used.len() == 0
}

/// Whether placeholders are what is found of the candidates within an expression, in the order in
/// which their code starts.
pub open spec fn are_found_within(
    codemap: Seq<FileView>,
    lx: Lexing,
    changed_side: ChangedSideView,
    modified_source: Seq<char>,
    expr: Expr,
    placeholders: Seq<PlaceholderView>,
) -> bool {
    exists|
        data: DataOf<&Expr>,
        candidates: Seq<CandidateView<&Expr>>,
        before: Matches,
        matches: Matches,
        order: Seq<int>,
    |
        {
            &&& #[trigger] keeps_exprs(data)
            &&& #[trigger] is_nothing(before)
            &&& candidates_within(expr, codemap, lx, data) == Ok::<
                Seq<CandidateView<&Expr>>,
                RuleError,
            >(candidates)
            &&& #[trigger] matched(
                match_context(codemap, lx, changed_side, modified_source),
                candidates,
                before,
            ) == Ok::<Matches, RuleError>(matches)
            &&& #[trigger] are_in_order_of_code(matches.found, placeholders, order)
        }
}

/// The rule of a change has the placeholders that are found of the candidates within the original
/// expression, in the order in which their code starts. It leads from that expression to the
/// changed part of the changed file. It fails only where the candidates, the changed part, the
/// placeholders or the rule cannot be had.
pub proof fn law_rule_of_change_has_what_is_found(
    codemap: Seq<FileView>,
    lx: Lexing,
    changed_side: ChangedSideView,
    expr: Expr,
    changed_span: ChangedSpan,
    modified_source: Seq<char>,
    item: Item,
)
    ensures
        match rule_of_change(codemap, lx, changed_side, expr, changed_span, modified_source, item) {
            Ok(text) => can_be_placed(changed_span, lone_file(modified_source)) && exists|
                placeholders: Seq<PlaceholderView>,
            |
                {
                    &&& #[trigger] are_found_within(
                        codemap,
                        lx,
                        changed_side,
                        modified_source,
                        expr,
                        placeholders,
                    )
                    &&& rule(
                        codemap,
                        placeholders,
                        expr,
                        item,
                        changed_side.required_paths,
                        seq![lone_file(modified_source)],
                        changed_span.at(lone_file(modified_source)),
                    ) == Ok::<Seq<char>, RuleError>(text)
                },
            Err(e) => exists|data: DataOf<&Expr>, before: Matches|
                #![trigger keeps_exprs(data), is_nothing(before)]
                {
                    &&& keeps_exprs(data)
                    &&& is_nothing(before)
                    &&& match candidates_within(expr, codemap, lx, data) {
                        Err(error) => error == e,
                        Ok(candidates) => if !can_be_placed(
                            changed_span,
                            lone_file(modified_source),
                        ) {
                            e is SpanOutsideFile
                        } else {
                            ||| matched(
                                match_context(codemap, lx, changed_side, modified_source),
                                candidates,
                                before,
                            ) == Err::<Matches, RuleError>(e)
                            ||| exists|placeholders: Seq<PlaceholderView>|
                                {
                                    &&& #[trigger] are_found_within(
                                        codemap,
                                        lx,
                                        changed_side,
                                        modified_source,
                                        expr,
                                        placeholders,
                                    )
                                    &&& rule(
                                        codemap,
                                        placeholders,
                                        expr,
                                        item,
                                        changed_side.required_paths,
                                        seq![lone_file(modified_source)],
                                        changed_span.at(lone_file(modified_source)),
                                    ) == Err::<Seq<char>, RuleError>(e)
                                }
                        },
                    }
                },
        },
{
    let data = expr_data();
    let before = Matches { found: Seq::empty(), used: Seq::empty() };
    let cx = match_context(codemap, lx, changed_side, modified_source);
    assert(keeps_exprs(data));
    assert(is_nothing(before));
    if let Ok(candidates) = candidates_within(expr, codemap, lx, data) {
        if can_be_placed(changed_span, lone_file(modified_source)) {
            if let Ok(matches) = matched(cx, candidates, before) {
                law_placeholders_go_by_start_of_code(matches.found);
                let placeholders = by_position(matches.found);
                let order = choose|order: Seq<int>| #[trigger]
                    are_in_order_of_code(matches.found, placeholders, order);
                assert(keeps_exprs(data) && is_nothing(before) && matched(cx, candidates, before)
                    == Ok::<Matches, RuleError>(matches) && are_in_order_of_code(
                    matches.found,
                    placeholders,
                    order,
                ));
                assert(are_found_within(
                    codemap,
                    lx,
                    changed_side,
                    modified_source,
                    expr,
                    placeholders,
                ));
            }
        }
    }
}

} // verus!
