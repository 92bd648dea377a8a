use crate::analysis::{
    by_position, expr_data, lone_file, match_context, position_keys, relative_span_data,
    rule_of_change, ChangedSideView,
};
use crate::candidate::{
    all_candidates, candidate_of, candidates_at, candidates_in, candidates_within, with_hash,
    CandidateView, DataOf,
};
use crate::codemap::{snippet_in, FileView};
use crate::error::RuleError;
use crate::hir::{Expr, Item, Node};
use crate::laws::matching::{
    are_nested, disjoint, is_candidate, is_match, is_nested, law_matches_are_sound,
    law_placeholders_are_candidates, law_placeholders_stand_apart, law_use_is_first_free_match,
    lemma_inner_candidates,
};
use crate::laws::rule::{
    are_substitutions, files_stand_apart, law_putting_text_back_leaves_code,
    lemma_snippet_of_file, put_back_text,
};
use crate::matcher::{
    matched, matched_first, matched_one, overlap, shortness_keys, use_of, MatchContext, Matches,
    PlaceholderView,
};
use crate::order::{comes_before, lemma_order_exists, stable_order};
use crate::paths::referenced_in;
use crate::rule::{
    declarations, placeholder_name, replacement_substitutions, rule_generics, rule_text,
    search_substitutions, substituted,
};
use crate::span::{ChangedSpan, RelativeSpan, Span};
use crate::text::listing;
use crate::token::Lexing;
use vstd::prelude::*;

verus! {

/// Whether `span` is a place within `whole` that has a text in the file.
pub open spec fn is_place(file: FileView, whole: Span, span: Span) -> bool {
    &&& whole.covers(span)
    &&& span.lo < span.hi
    &&& file.snippet(span.lo as int, span.hi as int) is Some
}

/// Whether all the candidates of the original code are places within `whole`.
pub open spec fn are_places<'a>(
    file: FileView,
    whole: Span,
    candidates: Seq<CandidateView<&'a Expr>>,
) -> bool {
    forall|i: int|
        0 <= i < all_candidates(candidates).len() ==> is_place(
            file,
            whole,
            (#[trigger] all_candidates(candidates)[i]).data.span,
        )
}

/// Whether all the candidates of the changed code are places within `whole`, and any two of them
/// stand apart or one contains the other.
pub open spec fn are_other_places(
    file: FileView,
    whole: Span,
    candidates: Seq<CandidateView<RelativeSpan>>,
) -> bool {
    &&& forall|i: int|
        0 <= i < all_candidates(candidates).len() ==> is_place(
            file,
            whole,
            (#[trigger] all_candidates(candidates)[i]).data.at(file),
        )
    &&& forall|i: int, j: int|
        0 <= i < all_candidates(candidates).len() && 0 <= j < all_candidates(candidates).len()
            ==> disjoint(
            (#[trigger] all_candidates(candidates)[i]).data.at(file),
            (#[trigger] all_candidates(candidates)[j]).data.at(file),
        ) || overlap(
            all_candidates(candidates)[i].data.at(file),
            all_candidates(candidates)[j].data.at(file),
        )
}

/// The substitutions of a pattern with other texts.
pub open spec fn filled(substitutions: Seq<(Span, Seq<char>)>, texts: Seq<Seq<char>>) -> Seq<
    (Span, Seq<char>),
> {
    Seq::new(substitutions.len(), |i: int| (substitutions[i].0, texts[i]))
}

/// What the placeholders stand for in the original code.
pub open spec fn original_texts(file: FileView, placeholders: Seq<PlaceholderView>) -> Seq<
    Seq<char>,
> {
    Seq::new(
        placeholders.len(),
        |i: int|
            file.snippet(
                placeholders[i].expr.span.lo as int,
                placeholders[i].expr.span.hi as int,
            )->0,
    )
}

/// What the placeholders stand for in the changed code.
pub open spec fn changed_texts(file: FileView, placeholders: Seq<PlaceholderView>) -> Seq<
    Seq<char>,
> {
    Seq::new(
        placeholders.len(),
        |i: int|
            file.snippet(
                placeholders[i].uses[0].lo as int,
                placeholders[i].uses[0].hi as int,
            )->0,
    )
}

/// Whether a span is where one of the candidates of the changed code stands.
pub open spec fn is_other_candidate(
    file: FileView,
    candidates: Seq<CandidateView<RelativeSpan>>,
    span: Span,
) -> bool {
    exists|k: int|
        0 <= k < all_candidates(candidates).len() && (#[trigger] all_candidates(
            candidates,
        )[k]).data.at(file) == span
}

/// Whether the matcher looks among the candidates `others` of the changed code.
pub open spec fn looks_among(cx: MatchContext, others: Seq<CandidateView<RelativeSpan>>) -> bool {
    forall|hash: u64| #[trigger]
        cx.other_candidates.contains_key(hash) ==> cx.other_candidates[hash] == with_hash(
            all_candidates(others),
            hash,
        )
}

proof fn lemma_used_one<'a>(
    cx: MatchContext,
    others: Seq<CandidateView<RelativeSpan>>,
    candidate: CandidateView<&'a Expr>,
    before: Matches,
)
    requires
        looks_among(cx, others),
        forall|i: int|
            0 <= i < before.used.len() ==> is_other_candidate(
                cx.other_filemap,
                others,
                #[trigger] before.used[i],
            ),
    ensures
        matched_one(cx, candidate, before) matches Ok(matches) ==> forall|i: int|
            0 <= i < matches.used.len() ==> is_other_candidate(
                cx.other_filemap,
                others,
                #[trigger] matches.used[i],
            ),
    decreases candidate, 0nat,
{
    match use_of(cx, candidate, before.used) {
        Err(_) => {},
        Ok(None) => {
            lemma_used_first(cx, others, candidate.children, candidate.children.len(), before);
        },
        Ok(Some(span)) => {
            let text = snippet_in(
                cx.codemap,
                candidate.data.span.lo as int,
                candidate.data.span.hi as int,
            )->0;
            let same_hash = cx.other_candidates[candidate.hash];
            let all = all_candidates(others);
            law_use_is_first_free_match(cx, (cx.lex)(text), same_hash, before.used);
            let k = choose|k: int|
                0 <= k < same_hash.len() && (#[trigger] same_hash[k]).data.at(cx.other_filemap)
                    == span;
            all.lemma_filter_contains_rev(
                |c: CandidateView<RelativeSpan>| c.hash == candidate.hash,
                same_hash[k],
            );
            let l = choose|l: int| 0 <= l < all.len() && all[l] == same_hash[k];
            assert(all[l].data.at(cx.other_filemap) == span);
            let matches = matched_one(cx, candidate, before)->Ok_0;
            assert forall|i: int| 0 <= i < matches.used.len() implies is_other_candidate(
                cx.other_filemap,
                others,
                #[trigger] matches.used[i],
            ) by {
                if i < before.used.len() {
                    assert(matches.used[i] == before.used[i]);
                }
            }
        },
    }
}

proof fn lemma_used_first<'a>(
    cx: MatchContext,
    others: Seq<CandidateView<RelativeSpan>>,
    candidates: Seq<CandidateView<&'a Expr>>,
    n: nat,
    before: Matches,
)
    requires
        looks_among(cx, others),
        forall|i: int|
            0 <= i < before.used.len() ==> is_other_candidate(
                cx.other_filemap,
                others,
                #[trigger] before.used[i],
            ),
    ensures
        matched_first(cx, candidates, n, before) matches Ok(matches) ==> forall|i: int|
            0 <= i < matches.used.len() ==> is_other_candidate(
                cx.other_filemap,
                others,
                #[trigger] matches.used[i],
            ),
    decreases candidates, n,
{
    if 0 < n <= candidates.len() {
        let m = (n - 1) as nat;
        lemma_used_first(cx, others, candidates, m, before);
        if let Ok(so_far) = matched_first(cx, candidates, m, before) {
            let order = stable_order(shortness_keys(candidates));
            lemma_order_exists(shortness_keys(candidates));
            lemma_used_one(cx, others, candidates[order[m as int]], so_far);
        }
    }
}

/// A placeholder with one use has one substitution in the changed code.
proof fn lemma_one_replacement_each(placeholders: Seq<PlaceholderView>)
    requires
        forall|i: int|
            0 <= i < placeholders.len() ==> (#[trigger] placeholders[i]).uses.len() == 1,
    ensures
        replacement_substitutions(placeholders).len() == placeholders.len(),
        forall|i: int|
            0 <= i < placeholders.len() ==> #[trigger] replacement_substitutions(placeholders)[i]
                == (placeholders[i].uses[0], placeholder_name(i as nat)),
    decreases placeholders.len(),
{
    if placeholders.len() > 0 {
        let before = placeholders.drop_last();
        assert forall|i: int| 0 <= i < before.len() implies (#[trigger] before[i]).uses.len()
            == 1 by {
            assert(before[i] == placeholders[i]);
        }
        lemma_one_replacement_each(before);
        assert(placeholders.last().uses.len() == 1);
        assert forall|i: int| 0 <= i < placeholders.len() implies (
        #[trigger] replacement_substitutions(placeholders)[i]) == (
            placeholders[i].uses[0],
            placeholder_name(i as nat),
        ) by {
            if i < before.len() {
                assert(replacement_substitutions(placeholders)[i] == replacement_substitutions(
                    before,
                )[i]);
                assert(before[i] == placeholders[i]);
            }
        }
    }
}

/// Where the candidates are nested, what was matched can be filled in on both sides.
proof fn lemma_matches_are_substitutions<'a>(
    codemap: Seq<FileView>,
    k: int,
    lx: Lexing,
    changed_side: ChangedSideView,
    modified_source: Seq<char>,
    code: Span,
    changed_code: Span,
    candidates: Seq<CandidateView<&'a Expr>>,
    matches: Matches,
)
    requires
        0 <= k < codemap.len(),
        codemap[k].snippet(code.lo as int, code.hi as int) is Some,
        are_nested(candidates),
        are_places(codemap[k], code, candidates),
        lone_file(modified_source).snippet(changed_code.lo as int, changed_code.hi as int) is Some,
        are_other_places(
            lone_file(modified_source),
            changed_code,
            changed_side.candidate_placeholders,
        ),
        matched(
            match_context(codemap, lx, changed_side, modified_source),
            candidates,
            (Matches { found: Seq::empty(), used: Seq::empty() }),
        ) == Ok::<Matches, RuleError>(matches),
    ensures
        are_substitutions(
            codemap[k],
            code,
            search_substitutions(by_position(matches.found)),
        ),
        are_substitutions(
            lone_file(modified_source),
            changed_code,
            replacement_substitutions(by_position(matches.found)),
        ),
{
    let none = Matches { found: Seq::empty(), used: Seq::empty() };
    let cx = match_context(codemap, lx, changed_side, modified_source);
    let others = changed_side.candidate_placeholders;
    let file = codemap[k];
    let other = lone_file(modified_source);
    let found = matches.found;
    let used = matches.used;
    let placeholders = by_position(found);
    let search = search_substitutions(placeholders);
    let replacement = replacement_substitutions(placeholders);

    law_matches_are_sound(cx, candidates, none);
    assert forall|i: int| 0 <= i < candidates.len() implies (
    #[trigger] candidates[i]).data.span.len() >= 0 by {
        let expr = *candidates[i].data;
        lemma_inner_candidates(candidates, i, expr);
        let c = choose|c: int|
            0 <= c < all_candidates(candidates).len() && *(#[trigger] all_candidates(
                candidates,
            )[c]).data == expr;
        assert(is_place(file, code, all_candidates(candidates)[c].data.span));
    }
    law_placeholders_stand_apart(cx, candidates);
    law_placeholders_are_candidates(cx, candidates);
    assert(looks_among(cx, others)) by {
        assert forall|hash: u64| #[trigger] cx.other_candidates.contains_key(hash) implies
        cx.other_candidates[hash] == with_hash(all_candidates(others), hash) by {
            assert(cx.other_candidates[hash] =~= with_hash(all_candidates(others), hash));
        }
    }
    lemma_used_first(cx, others, candidates, candidates.len(), none);

    let keys = position_keys(found);
    let order = stable_order(keys);
    lemma_order_exists(keys);
    assert forall|i: int| 0 <= i < placeholders.len() implies {
        let span = (#[trigger] placeholders[i]).expr.span;
        let at = placeholders[i].uses[0];
        &&& placeholders[i].uses.len() == 1
        &&& at == used[order[i]]
        &&& is_place(file, code, span)
        &&& is_place(other, changed_code, at)
    } by {
        let n = order[i];
        assert(placeholders[i] == found[n]);
        assert(is_match(cx, found[n], used[n]));
        assert(is_candidate(candidates, found[n].expr));
        let c = choose|c: int|
            0 <= c < all_candidates(candidates).len() && *(#[trigger] all_candidates(
                candidates,
            )[c]).data == found[n].expr;
        assert(is_place(file, code, all_candidates(candidates)[c].data.span));
        assert(is_other_candidate(other, others, used[n]));
        let d = choose|d: int|
            0 <= d < all_candidates(others).len() && (#[trigger] all_candidates(others)[d]).data.at(
                other,
            ) == used[n];
        assert(is_place(other, changed_code, all_candidates(others)[d].data.at(other)));
    }
    assert forall|i: int, j: int|
        0 <= i < placeholders.len() && 0 <= j < placeholders.len() && i != j implies disjoint(
        (#[trigger] placeholders[i]).expr.span,
        (#[trigger] placeholders[j]).expr.span,
    ) && disjoint(placeholders[i].uses[0], placeholders[j].uses[0]) by {
        let a = order[i];
        let b = order[j];
        if i < j {
            assert(comes_before(keys, order[i], order[j]));
        } else {
            assert(comes_before(keys, order[j], order[i]));
        }
        assert(a != b);
        assert(placeholders[i] == found[a] && placeholders[j] == found[b]);
        if a < b {
            assert(disjoint(found[a].expr.span, found[b].expr.span));
            assert(!overlap(used[a], used[b]));
        } else {
            assert(disjoint(found[b].expr.span, found[a].expr.span));
            assert(!overlap(used[b], used[a]));
        }
        assert(is_other_candidate(other, others, used[a]));
        assert(is_other_candidate(other, others, used[b]));
        let c = choose|c: int|
            0 <= c < all_candidates(others).len() && (#[trigger] all_candidates(others)[c]).data.at(
                other,
            ) == used[a];
        let d = choose|d: int|
            0 <= d < all_candidates(others).len() && (#[trigger] all_candidates(others)[d]).data.at(
                other,
            ) == used[b];
        assert(disjoint(
            all_candidates(others)[c].data.at(other),
            all_candidates(others)[d].data.at(other),
        ) || overlap(
            all_candidates(others)[c].data.at(other),
            all_candidates(others)[d].data.at(other),
        ));
    }
    lemma_one_replacement_each(placeholders);
    assert forall|i: int| 0 <= i < search.len() implies (#[trigger] search[i]).0
        == placeholders[i].expr.span by {}
    assert forall|i: int| 0 <= i < replacement.len() implies (#[trigger] replacement[i]).0
        == placeholders[i].uses[0] by {}
    assert(are_substitutions(file, code, search));
    assert(are_substitutions(other, changed_code, replacement));
}

/// The outermost expressions among nodes.
pub open spec fn outermost(nodes: Seq<Node>) -> Seq<Expr>
    decreases nodes,
{
    if nodes.len() == 0 {
        Seq::empty()
    } else {
        outermost(nodes.drop_last()) + outermost_at(nodes.last())
    }
}

pub open spec fn outermost_at(node: Node) -> Seq<Expr>
    decreases node,
{
    match node {
        Node::Item(item) => outermost(item.children@),
        Node::Body(body) => outermost(body.children@),
        Node::Path(path) => outermost(path.children@),
        Node::Expr(expr) => seq![expr],
    }
}

/// Whether no two of the expressions overlap.
pub open spec fn exprs_stand_apart(exprs: Seq<Expr>) -> bool {
    forall|i: int, j: int|
        0 <= i < exprs.len() && 0 <= j < exprs.len() && i != j ==> disjoint(
            (#[trigger] exprs[i]).span,
            (#[trigger] exprs[j]).span,
        )
}

/// Whether the expressions among nodes are places within `whole`, and what is within each of them
/// is laid out as well.
pub open spec fn are_laid_out(file: FileView, whole: Span, nodes: Seq<Node>) -> bool
    decreases nodes,
{
    if nodes.len() == 0 {
        true
    } else {
        are_laid_out(file, whole, nodes.drop_last()) && is_laid_out_at(file, whole, nodes.last())
    }
}

pub open spec fn is_laid_out_at(file: FileView, whole: Span, node: Node) -> bool
    decreases node,
{
    match node {
        Node::Item(item) => are_laid_out(file, whole, item.children@),
        Node::Body(body) => are_laid_out(file, whole, body.children@),
        Node::Path(path) => are_laid_out(file, whole, path.children@),
        Node::Expr(expr) => is_place(file, whole, expr.span) && is_laid_out(file, expr),
    }
}

/// Whether the expressions within an expression are places within it and stand apart, and so on
/// within each of them. The function that is called is left out of account.
pub open spec fn is_laid_out(file: FileView, expr: Expr) -> bool
    decreases expr,
{
    are_laid_out(file, expr.span, expr.operands()) && exprs_stand_apart(
        outermost(expr.operands()),
    )
}

/// The expressions among nodes, each before those within it. Functions that are called are left
/// out.
pub open spec fn exprs_in(nodes: Seq<Node>) -> Seq<Expr>
    decreases nodes,
{
    if nodes.len() == 0 {
        Seq::empty()
    } else {
        exprs_in(nodes.drop_last()) + exprs_at(nodes.last())
    }
}

pub open spec fn exprs_at(node: Node) -> Seq<Expr>
    decreases node,
{
    match node {
        Node::Item(item) => exprs_in(item.children@),
        Node::Body(body) => exprs_in(body.children@),
        Node::Path(path) => exprs_in(path.children@),
        Node::Expr(expr) => exprs_from(expr),
    }
}

pub open spec fn exprs_from(expr: Expr) -> Seq<Expr>
    decreases expr,
{
    seq![expr] + exprs_in(expr.operands())
}

/// Where in the changed file, taken by itself, an expression of the changed code comes from.
pub open spec fn changed_place(filemap: FileView, other: FileView, expr: Expr) -> Span {
    (RelativeSpan::of(expr.span, filemap)->0).at(other)
}

/// Whether expressions of the changed code come from places within `whole`, and any two of these
/// places stand apart or one contains the other.
pub open spec fn are_changed_places(
    filemap: FileView,
    other: FileView,
    whole: Span,
    exprs: Seq<Expr>,
) -> bool {
    &&& forall|i: int|
        0 <= i < exprs.len() ==> is_place(
            other,
            whole,
            changed_place(filemap, other, #[trigger] exprs[i]),
        )
    &&& forall|i: int, j: int|
        0 <= i < exprs.len() && 0 <= j < exprs.len() ==> disjoint(
            changed_place(filemap, other, #[trigger] exprs[i]),
            changed_place(filemap, other, #[trigger] exprs[j]),
        ) || overlap(
            changed_place(filemap, other, exprs[i]),
            changed_place(filemap, other, exprs[j]),
        )
}

/// The candidates of two lists, one behind the other, are those of each.
pub proof fn lemma_all_candidates_add<T>(a: Seq<CandidateView<T>>, b: Seq<CandidateView<T>>)
    ensures
        all_candidates(a + b) == all_candidates(a) + all_candidates(b),
    decreases b.len(),
{
    if b.len() == 0 {
        assert(a + b =~= a);
        assert(all_candidates(a) + all_candidates(b) =~= all_candidates(a));
    } else {
        lemma_all_candidates_add(a, b.drop_last());
        assert((a + b).drop_last() =~= a + b.drop_last());
        assert((a + b).last() == b.last());
        assert(all_candidates(a + b) =~= all_candidates(a) + all_candidates(b));
    }
}

proof fn lemma_all_candidates_one<T>(candidate: CandidateView<T>)
    ensures
        all_candidates(seq![candidate]) == seq![candidate] + all_candidates(candidate.children),
{
    assert(seq![candidate].drop_last() =~= Seq::empty());
    assert(seq![candidate].last() == candidate);
    assert(all_candidates(Seq::<CandidateView<T>>::empty()) =~= Seq::empty());
    assert(all_candidates(seq![candidate]) =~= seq![candidate] + all_candidates(
        candidate.children,
    ));
}

/// Whether candidates keep what is due of these expressions, in this order.
spec fn keep_data_of<T>(
    candidates: Seq<CandidateView<T>>,
    exprs: Seq<Expr>,
    data: DataOf<T>,
) -> bool {
    &&& candidates.len() == exprs.len()
    &&& forall|i: int|
        0 <= i < exprs.len() ==> data(#[trigger] exprs[i]) == Ok::<T, RuleError>(
            candidates[i].data,
        )
}

proof fn lemma_kept_add<T>(
    a: Seq<CandidateView<T>>,
    x: Seq<Expr>,
    b: Seq<CandidateView<T>>,
    y: Seq<Expr>,
    data: DataOf<T>,
)
    requires
        keep_data_of(a, x, data),
        keep_data_of(b, y, data),
    ensures
        keep_data_of(a + b, x + y, data),
{
    assert forall|i: int| 0 <= i < (x + y).len() implies data(#[trigger] (x + y)[i]) == Ok::<
        T,
        RuleError,
    >((a + b)[i].data) by {
        if i < x.len() {
            assert((x + y)[i] == x[i]);
        } else {
            assert((x + y)[i] == y[i - x.len()]);
        }
    }
}

/// The candidates among nodes, and those within them, are those of the expressions there.
proof fn lemma_candidates_of_exprs<T>(
    nodes: Seq<Node>,
    codemap: Seq<FileView>,
    lx: Lexing,
    data: DataOf<T>,
    candidates: Seq<CandidateView<T>>,
)
    requires
        candidates_in(nodes, codemap, lx, data) == Ok::<Seq<CandidateView<T>>, RuleError>(
            candidates,
        ),
    ensures
        keep_data_of(all_candidates(candidates), exprs_in(nodes), data),
        keep_data_of(candidates, outermost(nodes), data),
    decreases nodes,
{
    if nodes.len() > 0 {
        let before = candidates_in(nodes.drop_last(), codemap, lx, data)->Ok_0;
        let here = candidates_at(nodes.last(), codemap, lx, data)->Ok_0;
        assert(candidates == before + here);
        lemma_candidates_of_exprs(nodes.drop_last(), codemap, lx, data, before);
        lemma_candidates_of_node(nodes.last(), codemap, lx, data, here);
        lemma_all_candidates_add(before, here);
        lemma_kept_add(
            all_candidates(before),
            exprs_in(nodes.drop_last()),
            all_candidates(here),
            exprs_at(nodes.last()),
            data,
        );
        lemma_kept_add(
            before,
            outermost(nodes.drop_last()),
            here,
            outermost_at(nodes.last()),
            data,
        );
    }
}

proof fn lemma_candidates_of_node<T>(
    node: Node,
    codemap: Seq<FileView>,
    lx: Lexing,
    data: DataOf<T>,
    candidates: Seq<CandidateView<T>>,
)
    requires
        candidates_at(node, codemap, lx, data) == Ok::<Seq<CandidateView<T>>, RuleError>(
            candidates,
        ),
    ensures
        keep_data_of(all_candidates(candidates), exprs_at(node), data),
        keep_data_of(candidates, outermost_at(node), data),
    decreases node,
{
    match node {
        Node::Item(item) => {
            lemma_candidates_of_exprs(item.children@, codemap, lx, data, candidates);
        },
        Node::Body(body) => {
            lemma_candidates_of_exprs(body.children@, codemap, lx, data, candidates);
        },
        Node::Path(path) => {
            lemma_candidates_of_exprs(path.children@, codemap, lx, data, candidates);
        },
        Node::Expr(expr) => {
            let candidate = candidate_of(expr, codemap, lx, data)->Ok_0;
            lemma_candidates_of_expr(expr, codemap, lx, data, candidate);
            assert(candidates == seq![candidate]);
            lemma_all_candidates_one(candidate);
            assert(keep_data_of(seq![candidate], seq![expr], data));
            lemma_kept_add(
                seq![candidate],
                seq![expr],
                all_candidates(candidate.children),
                exprs_in(expr.operands()),
                data,
            );
        },
    }
}

proof fn lemma_candidates_of_expr<T>(
    expr: Expr,
    codemap: Seq<FileView>,
    lx: Lexing,
    data: DataOf<T>,
    candidate: CandidateView<T>,
)
    requires
        candidate_of(expr, codemap, lx, data) == Ok::<CandidateView<T>, RuleError>(candidate),
    ensures
        data(expr) == Ok::<T, RuleError>(candidate.data),
        candidates_in(expr.operands(), codemap, lx, data) == Ok::<
            Seq<CandidateView<T>>,
            RuleError,
        >(candidate.children),
        keep_data_of(all_candidates(candidate.children), exprs_in(expr.operands()), data),
        keep_data_of(candidate.children, outermost(expr.operands()), data),
    decreases expr,
{
    lemma_candidates_of_exprs(expr.operands(), codemap, lx, data, candidate.children);
}

/// The candidates among nodes that are laid out are nested, and they are places within `whole`.
proof fn lemma_laid_out<'a>(
    nodes: Seq<Node>,
    codemap: Seq<FileView>,
    lx: Lexing,
    file: FileView,
    whole: Span,
    candidates: Seq<CandidateView<&'a Expr>>,
)
    requires
        candidates_in(nodes, codemap, lx, expr_data()) == Ok::<
            Seq<CandidateView<&'a Expr>>,
            RuleError,
        >(candidates),
        are_laid_out(file, whole, nodes),
    ensures
        are_places(file, whole, candidates),
        forall|i: int| 0 <= i < candidates.len() ==> is_nested(#[trigger] candidates[i]),
    decreases nodes,
{
    if nodes.len() > 0 {
        let before = candidates_in(nodes.drop_last(), codemap, lx, expr_data::<'a>())->Ok_0;
        let here = candidates_at(nodes.last(), codemap, lx, expr_data::<'a>())->Ok_0;
        assert(candidates == before + here);
        lemma_laid_out(nodes.drop_last(), codemap, lx, file, whole, before);
        lemma_laid_out_at(nodes.last(), codemap, lx, file, whole, here);
        lemma_all_candidates_add(before, here);
        lemma_places_add(file, whole, before, here);
        assert forall|i: int| 0 <= i < candidates.len() implies is_nested(
            #[trigger] candidates[i],
        ) by {
            if i < before.len() {
                assert(candidates[i] == before[i]);
            } else {
                assert(candidates[i] == here[i - before.len()]);
            }
        }
    }
}

proof fn lemma_places_add<'a>(
    file: FileView,
    whole: Span,
    a: Seq<CandidateView<&'a Expr>>,
    b: Seq<CandidateView<&'a Expr>>,
)
    requires
        are_places(file, whole, a),
        are_places(file, whole, b),
    ensures
        are_places(file, whole, a + b),
{
    lemma_all_candidates_add(a, b);
    let (x, y) = (all_candidates(a), all_candidates(b));
    assert forall|i: int| 0 <= i < all_candidates(a + b).len() implies is_place(
        file,
        whole,
        (#[trigger] all_candidates(a + b)[i]).data.span,
    ) by {
        if i < x.len() {
            assert(all_candidates(a + b)[i] == x[i]);
        } else {
            assert(all_candidates(a + b)[i] == y[i - x.len()]);
        }
    }
}

proof fn lemma_laid_out_at<'a>(
    node: Node,
    codemap: Seq<FileView>,
    lx: Lexing,
    file: FileView,
    whole: Span,
    candidates: Seq<CandidateView<&'a Expr>>,
)
    requires
        candidates_at(node, codemap, lx, expr_data()) == Ok::<
            Seq<CandidateView<&'a Expr>>,
            RuleError,
        >(candidates),
        is_laid_out_at(file, whole, node),
    ensures
        are_places(file, whole, candidates),
        forall|i: int| 0 <= i < candidates.len() ==> is_nested(#[trigger] candidates[i]),
    decreases node,
{
    match node {
        Node::Item(item) => {
            lemma_laid_out(item.children@, codemap, lx, file, whole, candidates);
        },
        Node::Body(body) => {
            lemma_laid_out(body.children@, codemap, lx, file, whole, candidates);
        },
        Node::Path(path) => {
            lemma_laid_out(path.children@, codemap, lx, file, whole, candidates);
        },
        Node::Expr(expr) => {
            let candidate = candidate_of(expr, codemap, lx, expr_data::<'a>())->Ok_0;
            assert(candidates == seq![candidate]);
            lemma_laid_out_expr(expr, codemap, lx, file, candidate);
            lemma_all_candidates_one(candidate);
            let inner = all_candidates(candidate.children);
            assert forall|i: int| 0 <= i < all_candidates(candidates).len() implies is_place(
                file,
                whole,
                (#[trigger] all_candidates(candidates)[i]).data.span,
            ) by {
                if i > 0 {
                    assert(all_candidates(candidates)[i] == inner[i - 1]);
                }
            }
        },
    }
}

proof fn lemma_laid_out_expr<'a>(
    expr: Expr,
    codemap: Seq<FileView>,
    lx: Lexing,
    file: FileView,
    candidate: CandidateView<&'a Expr>,
)
    requires
        candidate_of(expr, codemap, lx, expr_data()) == Ok::<
            CandidateView<&'a Expr>,
            RuleError,
        >(candidate),
        is_laid_out(file, expr),
    ensures
        *candidate.data == expr,
        are_places(file, expr.span, candidate.children),
        is_nested(candidate),
    decreases expr,
{
    let children = candidate.children;
    lemma_candidates_of_expr(expr, codemap, lx, expr_data::<'a>(), candidate);
    lemma_laid_out(expr.operands(), codemap, lx, file, expr.span, children);
    lemma_laid_out_is_nested(expr, file, children);
    assert forall|i: int| 0 <= i < children.len() implies candidate.data.span.covers(
        (#[trigger] children[i]).data.span,
    ) && is_nested(children[i]) by {
        lemma_outermost_is_place(file, expr.span, children, i);
    }
}

proof fn lemma_outermost_is_place<'a>(
    file: FileView,
    whole: Span,
    candidates: Seq<CandidateView<&'a Expr>>,
    i: int,
)
    requires
        are_places(file, whole, candidates),
        0 <= i < candidates.len(),
    ensures
        is_place(file, whole, candidates[i].data.span),
{
    let expr = *candidates[i].data;
    lemma_inner_candidates(candidates, i, expr);
    let c = choose|c: int|
        0 <= c < all_candidates(candidates).len() && *(#[trigger] all_candidates(
            candidates,
        )[c]).data == expr;
    assert(is_place(file, whole, all_candidates(candidates)[c].data.span));
}

proof fn lemma_laid_out_is_nested<'a>(
    expr: Expr,
    file: FileView,
    candidates: Seq<CandidateView<&'a Expr>>,
)
    requires
        is_laid_out(file, expr),
        keep_data_of(candidates, outermost(expr.operands()), expr_data::<'a>()),
        forall|i: int| 0 <= i < candidates.len() ==> is_nested(#[trigger] candidates[i]),
    ensures
        are_nested(candidates),
{
    let exprs = outermost(expr.operands());
    assert forall|i: int, j: int|
        0 <= i < candidates.len() && 0 <= j < candidates.len() && i != j implies disjoint(
        (#[trigger] candidates[i]).data.span,
        (#[trigger] candidates[j]).data.span,
    ) by {
        assert(expr_data::<'a>()(exprs[i]) == Ok::<&'a Expr, RuleError>(candidates[i].data));
        assert(expr_data::<'a>()(exprs[j]) == Ok::<&'a Expr, RuleError>(candidates[j].data));
        assert(disjoint(exprs[i].span, exprs[j].span));
    }
}

/// What is found in the original code that is used in the changed code.
pub open spec fn matches_of_change(
    codemap: Seq<FileView>,
    lx: Lexing,
    changed_side: ChangedSideView,
    expr: Expr,
    modified_source: Seq<char>,
) -> Result<Matches, RuleError> {
    matched(
        match_context(codemap, lx, changed_side, modified_source),
        candidates_within(expr, codemap, lx, expr_data())->Ok_0,
        Matches { found: Seq::empty(), used: Seq::empty() },
    )
}

/// The placeholders of the rule of a change.
pub open spec fn placeholders_of_change(
    codemap: Seq<FileView>,
    lx: Lexing,
    changed_side: ChangedSideView,
    expr: Expr,
    modified_source: Seq<char>,
) -> Seq<PlaceholderView> {
    by_position(
        (matches_of_change(codemap, lx, changed_side, expr, modified_source)->Ok_0).found,
    )
}

/// Whether a rule reproduces a change. It is written with a search pattern and a replacement. The
/// search pattern, with each placeholder filled by the code that the placeholder stands for, is the
/// original code `expr` in file number `k`. The replacement, filled in the same way, is the changed
/// part of the modified source. And what fills a placeholder has the same tokens on both sides.
pub open spec fn reproduces_change(
    codemap: Seq<FileView>,
    k: int,
    lx: Lexing,
    changed_side: ChangedSideView,
    expr: Expr,
    changed_span: ChangedSpan,
    modified_source: Seq<char>,
    item: Item,
    text: Seq<char>,
) -> bool {
    let placeholders = placeholders_of_change(codemap, lx, changed_side, expr, modified_source);
    let file = codemap[k];
    let other = lone_file(modified_source);
    let changed_code = changed_span.at(other);
    let left = original_texts(file, placeholders);
    let right = changed_texts(other, placeholders);
    let (generics, where_text) = rule_generics(codemap, placeholders, item)->Ok_0;
    let search = substituted(codemap, expr.span, search_substitutions(placeholders));
    let replacement = substituted(
        seq![other],
        changed_code,
        replacement_substitutions(placeholders),
    );
    &&& search is Some
    &&& replacement is Some
    &&& text == rule_text(
        listing(referenced_in(expr.children@).union(changed_side.required_paths)),
        generics,
        declarations(placeholders),
        where_text,
        search->0,
        replacement->0,
    )
    &&& substituted(codemap, expr.span, filled(search_substitutions(placeholders), left))
        == file.snippet(expr.span.lo as int, expr.span.hi as int)
    &&& substituted(
        seq![other],
        changed_code,
        filled(replacement_substitutions(placeholders), right),
    ) == other.snippet(changed_code.lo as int, changed_code.hi as int)
    &&& forall|i: int| 0 <= i < placeholders.len() ==> lx(#[trigger] left[i]) == lx(right[i])
}

/// Whether the placeholders of the rule of a change can be filled in: in file number `k` they stand
/// at places within `expr` that do not overlap, and so do their uses in the changed part.
pub open spec fn can_be_filled(
    codemap: Seq<FileView>,
    k: int,
    lx: Lexing,
    changed_side: ChangedSideView,
    expr: Expr,
    changed_span: ChangedSpan,
    modified_source: Seq<char>,
) -> bool {
    let placeholders = placeholders_of_change(codemap, lx, changed_side, expr, modified_source);
    let other = lone_file(modified_source);
    &&& are_substitutions(codemap[k], expr.span, search_substitutions(placeholders))
    &&& are_substitutions(
        other,
        changed_span.at(other),
        replacement_substitutions(placeholders),
    )
}

proof fn lemma_filled(
    file: FileView,
    span: Span,
    substitutions: Seq<(Span, Seq<char>)>,
    texts: Seq<Seq<char>>,
)
    requires
        are_substitutions(file, span, substitutions),
    ensures
        are_substitutions(file, span, filled(substitutions, texts)),
{
    let other = filled(substitutions, texts);
    assert forall|i: int| 0 <= i < other.len() implies (#[trigger] other[i]).0
        == substitutions[i].0 by {}
}

/// A rule reproduces the change it was made of, wherever its placeholders can be filled in. They
/// cannot be where a macro made code whose spans overlap.
pub proof fn law_rule_reproduces_change(
    codemap: Seq<FileView>,
    k: int,
    lx: Lexing,
    changed_side: ChangedSideView,
    expr: Expr,
    changed_span: ChangedSpan,
    modified_source: Seq<char>,
    item: Item,
    text: Seq<char>,
)
    requires
        rule_of_change(
            codemap,
            lx,
            changed_side,
            expr,
            changed_span,
            modified_source,
            item,
        ) == Ok::<Seq<char>, RuleError>(text),
        files_stand_apart(codemap),
        0 <= k < codemap.len(),
        can_be_filled(codemap, k, lx, changed_side, expr, changed_span, modified_source),
    ensures
        reproduces_change(
            codemap,
            k,
            lx,
            changed_side,
            expr,
            changed_span,
            modified_source,
            item,
            text,
        ),
{
    let none = Matches { found: Seq::empty(), used: Seq::empty() };
    let file = codemap[k];
    let other = lone_file(modified_source);
    let changed_code = changed_span.at(other);
    let cx = match_context(codemap, lx, changed_side, modified_source);
    let candidates = candidates_within(expr, codemap, lx, expr_data())->Ok_0;
    let matches = matches_of_change(codemap, lx, changed_side, expr, modified_source)->Ok_0;
    let placeholders = by_position(matches.found);
    let left = original_texts(file, placeholders);
    let right = changed_texts(other, placeholders);
    let search = filled(search_substitutions(placeholders), left);
    let replacement = filled(replacement_substitutions(placeholders), right);
    law_matches_are_sound(cx, candidates, none);
    let keys = position_keys(matches.found);
    let order = stable_order(keys);
    lemma_order_exists(keys);
    assert forall|i: int| 0 <= i < placeholders.len() implies (
    #[trigger] placeholders[i]).uses.len() == 1 && placeholders[i].uses[0]
        == matches.used[order[i]] && is_match(cx, placeholders[i], matches.used[order[i]]) by {
        assert(is_match(cx, matches.found[order[i]], matches.used[order[i]]));
    }
    lemma_one_replacement_each(placeholders);
    assert forall|i: int| 0 <= i < placeholders.len() implies lx(#[trigger] left[i]) == lx(
        right[i],
    ) && file.snippet(
        placeholders[i].expr.span.lo as int,
        placeholders[i].expr.span.hi as int,
    ) == Some(left[i]) && other.snippet(
        placeholders[i].uses[0].lo as int,
        placeholders[i].uses[0].hi as int,
    ) == Some(right[i]) by {
        let span = placeholders[i].expr.span;
        assert(search_substitutions(placeholders)[i].0 == span);
        assert(replacement_substitutions(placeholders)[i].0 == placeholders[i].uses[0]);
        lemma_snippet_of_file(codemap, k, span.lo as int, span.hi as int);
        assert(is_match(cx, placeholders[i], matches.used[order[i]]));
    }
    lemma_filled(file, expr.span, search_substitutions(placeholders), left);
    lemma_filled(other, changed_code, replacement_substitutions(placeholders), right);
    assert forall|i: int| 0 <= i < search.len() implies #[trigger] search[i] == (
        placeholders[i].expr.span,
        left[i],
    ) by {}
    assert forall|i: int| 0 <= i < replacement.len() implies #[trigger] replacement[i] == (
        placeholders[i].uses[0],
        right[i],
    ) by {
        assert(replacement_substitutions(placeholders)[i].0 == placeholders[i].uses[0]);
    }
    assert(put_back_text(file, search)) by {
        assert forall|i: int| 0 <= i < search.len() implies file.snippet(
            (#[trigger] search[i]).0.lo as int,
            search[i].0.hi as int,
        ) == Some(search[i].1) by {
            let _ = left[i];
        }
    }
    assert(put_back_text(other, replacement)) by {
        assert forall|i: int| 0 <= i < replacement.len() implies other.snippet(
            (#[trigger] replacement[i]).0.lo as int,
            replacement[i].0.hi as int,
        ) == Some(replacement[i].1) by {
            let _ = left[i];
        }
    }
    law_putting_text_back_leaves_code(codemap, k, expr.span, search);
    lemma_snippet_of_file(codemap, k, expr.span.lo as int, expr.span.hi as int);
    let alone = seq![other];
    assert(files_stand_apart(alone));
    law_putting_text_back_leaves_code(alone, 0, changed_code, replacement);
    lemma_snippet_of_file(alone, 0, changed_code.lo as int, changed_code.hi as int);
}

/// The placeholders of a rule can be filled in where, in the original code `expr` and in each
/// expression within it, the outermost expressions within stand apart, and where the places that
/// the expressions of the changed code `changed_expr` come from stand apart or contain one another.
pub proof fn law_laid_out_code_can_be_filled(
    codemap: Seq<FileView>,
    k: int,
    lx: Lexing,
    changed_side: ChangedSideView,
    expr: Expr,
    changed_span: ChangedSpan,
    modified_source: Seq<char>,
    item: Item,
    changed_codemap: Seq<FileView>,
    changed_filemap: FileView,
    changed_expr: Expr,
)
    requires
        rule_of_change(
            codemap,
            lx,
            changed_side,
            expr,
            changed_span,
            modified_source,
            item,
        ) is Ok,
        candidates_within(
            changed_expr,
            changed_codemap,
            lx,
            relative_span_data(changed_filemap),
        ) == Ok::<Seq<CandidateView<RelativeSpan>>, RuleError>(
            changed_side.candidate_placeholders,
        ),
        0 <= k < codemap.len(),
        codemap[k].snippet(expr.span.lo as int, expr.span.hi as int) is Some,
        is_laid_out(codemap[k], expr),
        lone_file(modified_source).snippet(
            changed_span.at(lone_file(modified_source)).lo as int,
            changed_span.at(lone_file(modified_source)).hi as int,
        ) is Some,
        are_changed_places(
            changed_filemap,
            lone_file(modified_source),
            changed_span.at(lone_file(modified_source)),
            exprs_in(changed_expr.operands()),
        ),
    ensures
        can_be_filled(codemap, k, lx, changed_side, expr, changed_span, modified_source),
{
    let file = codemap[k];
    let other = lone_file(modified_source);
    let changed_code = changed_span.at(other);
    let candidates = candidates_within(expr, codemap, lx, expr_data())->Ok_0;
    let others = changed_side.candidate_placeholders;
    let matches = matches_of_change(codemap, lx, changed_side, expr, modified_source)->Ok_0;
    lemma_candidates_of_exprs(expr.operands(), codemap, lx, expr_data(), candidates);
    lemma_laid_out(expr.operands(), codemap, lx, file, expr.span, candidates);
    lemma_laid_out_is_nested(expr, file, candidates);
    let data = relative_span_data(changed_filemap);
    let exprs = exprs_in(changed_expr.operands());
    lemma_candidates_of_exprs(changed_expr.operands(), changed_codemap, lx, data, others);
    assert forall|i: int| 0 <= i < exprs.len() implies changed_place(
        changed_filemap,
        other,
        #[trigger] exprs[i],
    ) == all_candidates(others)[i].data.at(other) by {
        assert(data(exprs[i]) == Ok::<RelativeSpan, RuleError>(all_candidates(others)[i].data));
    }
    assert forall|i: int| 0 <= i < all_candidates(others).len() implies is_place(
        other,
        changed_code,
        (#[trigger] all_candidates(others)[i]).data.at(other),
    ) by {
        assert(is_place(other, changed_code, changed_place(changed_filemap, other, exprs[i])));
    }
    assert forall|i: int, j: int|
        0 <= i < all_candidates(others).len() && 0 <= j < all_candidates(
            others,
        ).len() implies disjoint(
        (#[trigger] all_candidates(others)[i]).data.at(other),
        (#[trigger] all_candidates(others)[j]).data.at(other),
    ) || overlap(
        all_candidates(others)[i].data.at(other),
        all_candidates(others)[j].data.at(other),
    ) by {
        let (a, b) = (exprs[i], exprs[j]);
        assert(disjoint(
            changed_place(changed_filemap, other, a),
            changed_place(changed_filemap, other, b),
        ) || overlap(
            changed_place(changed_filemap, other, a),
            changed_place(changed_filemap, other, b),
        ));
    }
    lemma_matches_are_substitutions(
        codemap,
        k,
        lx,
        changed_side,
        modified_source,
        expr.span,
        changed_code,
        candidates,
        matches,
    );
}

} // verus!
