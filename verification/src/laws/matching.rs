use crate::candidate::{
    all_candidates, bucket, candidates_in, filed, with_hash, CandidateView, DataOf,
};
use crate::codemap::{snippet_in, FileView};
use crate::hir::Expr;
use crate::matcher::{
    are_outcomes, are_picked, at_path, first_use, found_by, found_by_one, is_free, is_outcome,
    longest_first, matched, matched_first, matched_one, none_lies_within_another, overlap,
    resorted_by, resorted_by_one, shortness_keys, use_of, uses_stand_apart, MatchContext, Matches,
    Outcome, PlaceholderView,
};
use crate::order::{comes_before, lemma_arranged_items, lemma_order_exists, stable_order};
use crate::span::{RelativeSpan, Span};
use crate::token::{Lexing, TokenView};
use vstd::prelude::*;

verus! {

/// Whether the tokens of a span of the changed file are `tokens`.
pub open spec fn has_tokens(cx: MatchContext, span: Span, tokens: Seq<TokenView>) -> bool {
    cx.other_filemap.snippet(span.lo as int, span.hi as int) matches Some(text) && (cx.lex)(text)
        == tokens
}

/// Whether a placeholder is used at one place of the changed file, which has the same tokens.
pub open spec fn is_match(cx: MatchContext, placeholder: PlaceholderView, span: Span) -> bool {
    &&& placeholder.uses == seq![span]
    &&& snippet_in(
        cx.codemap,
        placeholder.expr.span.lo as int,
        placeholder.expr.span.hi as int,
    ) matches Some(text) && has_tokens(cx, span, (cx.lex)(text))
}

/// Whether every placeholder is used at a place with the same tokens, and no two of these places
/// contain one another.
pub open spec fn are_sound(cx: MatchContext, matches: Matches) -> bool {
    &&& matches.found.len() == matches.used.len()
    &&& forall|i: int|
        0 <= i < matches.found.len() ==> is_match(cx, #[trigger] matches.found[i], matches.used[i])
    &&& forall|i: int, j: int|
        0 <= i < j < matches.used.len() ==> !overlap(
            #[trigger] matches.used[i],
            #[trigger] matches.used[j],
        )
}

/// The place where a candidate is used is the first of the places with its hash that has the given
/// tokens and is free.
pub proof fn law_use_is_first_free_match(
    cx: MatchContext,
    tokens: Seq<TokenView>,
    others: Seq<CandidateView<RelativeSpan>>,
    used: Seq<Span>,
)
    ensures
        match first_use(cx, tokens, others, used) {
            Ok(Some(span)) => exists|k: int|
                {
                    &&& 0 <= k < others.len()
                    &&& (#[trigger] others[k]).data.at(cx.other_filemap) == span
                    &&& has_tokens(cx, span, tokens)
                    &&& is_free(used, span)
                    &&& forall|j: int|
                        0 <= j < k ==> !(has_tokens(
                            cx,
                            (#[trigger] others[j]).data.at(cx.other_filemap),
                            tokens,
                        ) && is_free(used, others[j].data.at(cx.other_filemap)))
                },
            Ok(None) => forall|j: int|
                0 <= j < others.len() ==> !(has_tokens(
                    cx,
                    (#[trigger] others[j]).data.at(cx.other_filemap),
                    tokens,
                ) && is_free(used, others[j].data.at(cx.other_filemap))),
            Err(_) => true,
        },
    decreases others.len(),
{
    if others.len() > 0 && others[0].data.fits(cx.other_filemap) {
        let rest = others.skip(1);
        let span = others[0].data.at(cx.other_filemap);
        if has_tokens(cx, span, tokens) && is_free(used, span) {
            assert(others[0].data.at(cx.other_filemap) == span);
        } else if cx.other_filemap.snippet(span.lo as int, span.hi as int) is Some {
            law_use_is_first_free_match(cx, tokens, rest, used);
            assert(first_use(cx, tokens, others, used) == first_use(cx, tokens, rest, used));
            match first_use(cx, tokens, rest, used) {
                Ok(Some(found)) => {
                    let k = choose|k: int|
                        {
                            &&& 0 <= k < rest.len()
                            &&& (#[trigger] rest[k]).data.at(cx.other_filemap) == found
                            &&& has_tokens(cx, found, tokens)
                            &&& is_free(used, found)
                            &&& forall|j: int|
                                0 <= j < k ==> !(has_tokens(
                                    cx,
                                    (#[trigger] rest[j]).data.at(cx.other_filemap),
                                    tokens,
                                ) && is_free(used, rest[j].data.at(cx.other_filemap)))
                        };
                    assert(others[k + 1] == rest[k]);
                    assert forall|j: int| 0 <= j < k + 1 implies !(has_tokens(
                        cx,
                        (#[trigger] others[j]).data.at(cx.other_filemap),
                        tokens,
                    ) && is_free(used, others[j].data.at(cx.other_filemap))) by {
                        if j > 0 {
                            assert(others[j] == rest[j - 1]);
                        }
                    }
                },
                Ok(None) => {
                    assert forall|j: int| 0 <= j < others.len() implies !(has_tokens(
                        cx,
                        (#[trigger] others[j]).data.at(cx.other_filemap),
                        tokens,
                    ) && is_free(used, others[j].data.at(cx.other_filemap))) by {
                        if j > 0 {
                            assert(others[j] == rest[j - 1]);
                        }
                    }
                },
                Err(_) => {},
            }
        }
    }
}

proof fn lemma_match_one<'a>(cx: MatchContext, candidate: CandidateView<&'a Expr>, before: Matches)
    requires
        are_sound(cx, before),
    ensures
        matched_one(cx, candidate, before) matches Ok(matches) ==> are_sound(cx, matches),
    decreases candidate, 0nat,
{
    match use_of(cx, candidate, before.used) {
        Err(_) => {},
        Ok(None) => {
            lemma_match_first(cx, candidate.children, candidate.children.len(), before);
        },
        Ok(Some(span)) => {
            let text = snippet_in(
                cx.codemap,
                candidate.data.span.lo as int,
                candidate.data.span.hi as int,
            )->0;
            law_use_is_first_free_match(
                cx,
                (cx.lex)(text),
                cx.other_candidates[candidate.hash],
                before.used,
            );
            let matches = matched_one(cx, candidate, before)->Ok_0;
            assert forall|i: int| 0 <= i < matches.found.len() implies is_match(
                cx,
                #[trigger] matches.found[i],
                matches.used[i],
            ) by {
                if i < before.found.len() {
                    assert(matches.found[i] == before.found[i]);
                }
            }
            assert forall|i: int, j: int| 0 <= i < j < matches.used.len() implies !overlap(
                #[trigger] matches.used[i],
                #[trigger] matches.used[j],
            ) by {
                assert(matches.used[i] == before.used[i]);
                if j < before.used.len() {
                    assert(matches.used[j] == before.used[j]);
                }
            }
        },
    }
}

proof fn lemma_match_first<'a>(
    cx: MatchContext,
    candidates: Seq<CandidateView<&'a Expr>>,
    n: nat,
    before: Matches,
)
    requires
        are_sound(cx, before),
    ensures
        matched_first(cx, candidates, n, before) matches Ok(matches) ==> are_sound(cx, matches),
    decreases candidates, n,
{
    if 0 < n <= candidates.len() {
        lemma_match_first(cx, candidates, (n - 1) as nat, before);
        if let Ok(so_far) = matched_first(cx, candidates, (n - 1) as nat, before) {
            lemma_arranged_items(candidates, shortness_keys(candidates));
            lemma_match_one(
                cx,
                candidates[stable_order(shortness_keys(candidates))[n - 1]],
                so_far,
            );
        }
    }
}

/// Every placeholder is used at one place of the changed code, which has the tokens that the
/// placeholder has in the original code, and no two of these places contain one another.
pub proof fn law_matches_are_sound<'a>(
    cx: MatchContext,
    candidates: Seq<CandidateView<&'a Expr>>,
    before: Matches,
)
    requires
        are_sound(cx, before),
    ensures
        matched(cx, candidates, before) matches Ok(matches) ==> are_sound(cx, matches),
{
    lemma_match_first(cx, candidates, candidates.len(), before);
}

/// Candidates come before shorter ones, and candidates of the same length stay in the order in
/// which they come.
pub proof fn law_longest_come_first<'a>(candidates: Seq<CandidateView<&'a Expr>>, i: int, j: int)
    requires
        0 <= i < j < candidates.len(),
        longest_first(candidates)[i].data.span.len() >= 0,
        longest_first(candidates)[j].data.span.len() >= 0,
    ensures
        longest_first(candidates)[i].data.span.len() >= longest_first(
            candidates,
        )[j].data.span.len(),
        longest_first(candidates)[i].data.span.len() == longest_first(
            candidates,
        )[j].data.span.len() ==> stable_order(shortness_keys(candidates))[i] < stable_order(
            shortness_keys(candidates),
        )[j],
{
    let keys = shortness_keys(candidates);
    let order = stable_order(keys);
    lemma_order_exists(keys);
    assert(comes_before(keys, order[i], order[j]));
}

/// Whether neither of two spans has a position within the other.
pub open spec fn disjoint(a: Span, b: Span) -> bool {
    a.hi <= b.lo || b.hi <= a.lo
}

/// Whether each candidate stands apart from those beside it.
pub open spec fn stand_apart<'a>(candidates: Seq<CandidateView<&'a Expr>>) -> bool {
    forall|i: int, j: int|
        0 <= i < candidates.len() && 0 <= j < candidates.len() && i != j ==> disjoint(
            (#[trigger] candidates[i]).data.span,
            (#[trigger] candidates[j]).data.span,
        )
}

/// Whether the candidates within a candidate lie within its span and stand apart, and so on within
/// each of them.
pub open spec fn is_nested<'a>(candidate: CandidateView<&'a Expr>) -> bool
    decreases candidate,
{
    &&& stand_apart(candidate.children)
    &&& forall|i: int|
        0 <= i < candidate.children.len() ==> candidate.data.span.covers(
            (#[trigger] candidate.children[i]).data.span,
        ) && is_nested(candidate.children[i])
}

/// Whether candidates stand apart and each of them is nested.
pub open spec fn are_nested<'a>(candidates: Seq<CandidateView<&'a Expr>>) -> bool {
    &&& stand_apart(candidates)
    &&& forall|i: int| 0 <= i < candidates.len() ==> is_nested(#[trigger] candidates[i])
}

/// Whether the placeholders from number `from` on stand apart.
pub open spec fn placeholders_stand_apart(found: Seq<PlaceholderView>, from: int) -> bool {
    forall|i: int, j: int|
        from <= i < j < found.len() ==> disjoint(
            (#[trigger] found[i]).expr.span,
            (#[trigger] found[j]).expr.span,
        )
}

/// Whether `span` lies within one of the first `n` candidates, the longest first.
pub open spec fn is_in_one_of<'a>(
    candidates: Seq<CandidateView<&'a Expr>>,
    n: int,
    span: Span,
) -> bool {
    exists|k: int|
        0 <= k < n && candidates[#[trigger] stable_order(
            shortness_keys(candidates),
        )[k]].data.span.covers(span)
}

proof fn lemma_apart_one<'a>(cx: MatchContext, candidate: CandidateView<&'a Expr>, before: Matches)
    requires
        is_nested(candidate),
        candidate.data.span.len() >= 0,
    ensures
        matched_one(cx, candidate, before) matches Ok(matches) ==> {
            &&& before.found.is_prefix_of(matches.found)
            &&& placeholders_stand_apart(matches.found, before.found.len() as int)
            &&& forall|i: int|
                before.found.len() <= i < matches.found.len() ==> candidate.data.span.covers(
                    (#[trigger] matches.found[i]).expr.span,
                )
        },
    decreases candidate, 0nat,
{
    match use_of(cx, candidate, before.used) {
        Err(_) => {},
        Ok(Some(_)) => {},
        Ok(None) => {
            let children = candidate.children;
            assert(are_nested(children));
            lemma_apart_first(cx, children, children.len(), before);
            if let Ok(matches) = matched_first(cx, children, children.len(), before) {
                lemma_order_exists(shortness_keys(children));
                assert forall|i: int| before.found.len() <= i < matches.found.len() implies
                candidate.data.span.covers((#[trigger] matches.found[i]).expr.span) by {
                    let span = matches.found[i].expr.span;
                    assert(is_in_one_of(children, children.len() as int, span));
                    let order = stable_order(shortness_keys(children));
                    let k = choose|k: int|
                        0 <= k < children.len() && children[#[trigger] order[k]].data.span.covers(
                            span,
                        );
                    assert(candidate.data.span.covers(children[order[k]].data.span));
                }
            }
        },
    }
}

proof fn lemma_apart_first<'a>(
    cx: MatchContext,
    candidates: Seq<CandidateView<&'a Expr>>,
    n: nat,
    before: Matches,
)
    requires
        are_nested(candidates),
        forall|i: int|
            0 <= i < candidates.len() ==> (#[trigger] candidates[i]).data.span.len() >= 0,
        n <= candidates.len(),
    ensures
        matched_first(cx, candidates, n, before) matches Ok(matches) ==> {
            &&& before.found.is_prefix_of(matches.found)
            &&& placeholders_stand_apart(matches.found, before.found.len() as int)
            &&& forall|i: int|
                before.found.len() <= i < matches.found.len() ==> is_in_one_of(
                    candidates,
                    n as int,
                    (#[trigger] matches.found[i]).expr.span,
                )
        },
    decreases candidates, n,
{
    if n > 0 {
        let m = (n - 1) as nat;
        lemma_apart_first(cx, candidates, m, before);
        if let Ok(so_far) = matched_first(cx, candidates, m, before) {
            let keys = shortness_keys(candidates);
            let order = stable_order(keys);
            lemma_order_exists(keys);
            let candidate = candidates[order[m as int]];
            lemma_apart_one(cx, candidate, so_far);
            if let Ok(matches) = matched_one(cx, candidate, so_far) {
                let from = before.found.len() as int;
                let mid = so_far.found.len() as int;
                assert(forall|i: int|
                    0 <= i < mid ==> #[trigger] matches.found[i] == so_far.found[i]) by {
                    assert(matches.found.subrange(0, mid) == so_far.found);
                    assert forall|i: int| 0 <= i < mid implies #[trigger] matches.found[i]
                        == so_far.found[i] by {
                        assert(matches.found.subrange(0, mid)[i] == matches.found[i]);
                    }
                }
                assert forall|i: int| from <= i < matches.found.len() implies is_in_one_of(
                    candidates,
                    n as int,
                    (#[trigger] matches.found[i]).expr.span,
                ) by {
                    let span = matches.found[i].expr.span;
                    if i < mid {
                        assert(so_far.found[i] == matches.found[i]);
                        assert(is_in_one_of(candidates, m as int, span));
                    } else {
                        assert(candidates[order[m as int]].data.span.covers(span));
                    }
                }
                assert forall|i: int, j: int| from <= i < j < matches.found.len() implies disjoint(
                    (#[trigger] matches.found[i]).expr.span,
                    (#[trigger] matches.found[j]).expr.span,
                ) by {
                    if j < mid {
                        assert(so_far.found[i] == matches.found[i]);
                        assert(so_far.found[j] == matches.found[j]);
                    } else if i < mid {
                        let span = matches.found[i].expr.span;
                        assert(so_far.found[i] == matches.found[i]);
                        assert(is_in_one_of(candidates, m as int, span));
                        let k = choose|k: int|
                            0 <= k < m && candidates[#[trigger] order[k]].data.span.covers(span);
                        assert(comes_before(keys, order[k], order[m as int]));
                        assert(disjoint(candidates[order[k]].data.span, candidate.data.span));
                    }
                }
                assert(before.found =~= matches.found.subrange(0, from)) by {
                    assert(so_far.found.subrange(0, from) == before.found);
                    assert forall|i: int| 0 <= i < from implies before.found[i]
                        == #[trigger] matches.found[i] by {
                        assert(so_far.found.subrange(0, from)[i] == so_far.found[i]);
                    }
                }
            }
        }
    } else {
        assert(before.found =~= before.found.subrange(0, before.found.len() as int));
    }
}

/// Placeholders do not overlap in the original code, if the candidates do not but for those that
/// lie within one another.
pub proof fn law_placeholders_stand_apart<'a>(
    cx: MatchContext,
    candidates: Seq<CandidateView<&'a Expr>>,
)
    requires
        are_nested(candidates),
        forall|i: int|
            0 <= i < candidates.len() ==> (#[trigger] candidates[i]).data.span.len() >= 0,
    ensures
        matched(
            cx,
            candidates,
            (Matches { found: Seq::empty(), used: Seq::empty() }),
        ) matches Ok(matches) ==> placeholders_stand_apart(matches.found, 0),
{
    lemma_apart_first(
        cx,
        candidates,
        candidates.len(),
        Matches { found: Seq::empty(), used: Seq::empty() },
    );
}

/// Whether one of the candidates, or one within them, is the expression `expr`.
pub open spec fn is_candidate<'a>(candidates: Seq<CandidateView<&'a Expr>>, expr: Expr) -> bool {
    exists|k: int|
        0 <= k < all_candidates(candidates).len() && *(#[trigger] all_candidates(
            candidates,
        )[k]).data == expr
}

/// A candidate, and each one within it, is among all the candidates.
pub proof fn lemma_inner_candidates<'a>(
    candidates: Seq<CandidateView<&'a Expr>>,
    i: int,
    expr: Expr,
)
    requires
        0 <= i < candidates.len(),
        *candidates[i].data == expr || is_candidate(candidates[i].children, expr),
    ensures
        is_candidate(candidates, expr),
    decreases candidates.len(),
{
    let before = all_candidates(candidates.drop_last());
    let inner = all_candidates(candidates.last().children);
    let all = all_candidates(candidates);
    assert(all == before.push(candidates.last()) + inner);
    if i < candidates.len() - 1 {
        assert(candidates.drop_last()[i] == candidates[i]);
        lemma_inner_candidates(candidates.drop_last(), i, expr);
        let k = choose|k: int| 0 <= k < before.len() && *(#[trigger] before[k]).data == expr;
        assert(all[k] == before[k]);
    } else if *candidates[i].data == expr {
        assert(all[before.len() as int] == candidates[i]);
    } else {
        let k = choose|k: int| 0 <= k < inner.len() && *(#[trigger] inner[k]).data == expr;
        assert(all[before.len() + 1 + k] == inner[k]);
    }
}

proof fn lemma_candidate_one<'a>(
    cx: MatchContext,
    candidate: CandidateView<&'a Expr>,
    before: Matches,
)
    ensures
        matched_one(cx, candidate, before) matches Ok(matches) ==> forall|i: int|
            0 <= i < matches.found.len() ==> before.found.contains(#[trigger] matches.found[i])
                || *candidate.data == matches.found[i].expr || is_candidate(
                candidate.children,
                matches.found[i].expr,
            ),
    decreases candidate, 0nat,
{
    match use_of(cx, candidate, before.used) {
        Err(_) => {},
        Ok(Some(_)) => {
            let matches = matched_one(cx, candidate, before)->Ok_0;
            assert forall|i: int| 0 <= i < matches.found.len() implies before.found.contains(
                #[trigger] matches.found[i],
            ) || *candidate.data == matches.found[i].expr by {
                if i < before.found.len() {
                    assert(before.found[i] == matches.found[i]);
                }
            }
        },
        Ok(None) => {
            lemma_candidate_first(cx, candidate.children, candidate.children.len(), before);
        },
    }
}

proof fn lemma_candidate_first<'a>(
    cx: MatchContext,
    candidates: Seq<CandidateView<&'a Expr>>,
    n: nat,
    before: Matches,
)
    ensures
        matched_first(cx, candidates, n, before) matches Ok(matches) ==> forall|i: int|
            0 <= i < matches.found.len() ==> before.found.contains(#[trigger] matches.found[i])
                || is_candidate(candidates, matches.found[i].expr),
    decreases candidates, n,
{
    if 0 < n <= candidates.len() {
        let m = (n - 1) as nat;
        lemma_candidate_first(cx, candidates, m, before);
        if let Ok(so_far) = matched_first(cx, candidates, m, before) {
            let order = stable_order(shortness_keys(candidates));
            lemma_order_exists(shortness_keys(candidates));
            let candidate = candidates[order[m as int]];
            lemma_candidate_one(cx, candidate, so_far);
            if let Ok(matches) = matched_one(cx, candidate, so_far) {
                assert forall|i: int| 0 <= i < matches.found.len() implies before.found.contains(
                    #[trigger] matches.found[i],
                ) || is_candidate(candidates, matches.found[i].expr) by {
                    let found = matches.found[i];
                    if so_far.found.contains(found) {
                        let k = choose|k: int|
                            0 <= k < so_far.found.len() && so_far.found[k] == found;
                        assert(so_far.found[k] == found);
                    } else {
                        lemma_inner_candidates(candidates, order[m as int], found.expr);
                    }
                }
            }
        }
    }
}

/// Only candidates become placeholders.
pub proof fn law_placeholders_are_candidates<'a>(
    cx: MatchContext,
    candidates: Seq<CandidateView<&'a Expr>>,
)
    ensures
        matched(
            cx,
            candidates,
            (Matches { found: Seq::empty(), used: Seq::empty() }),
        ) matches Ok(matches) ==> forall|i: int|
            0 <= i < matches.found.len() ==> is_candidate(
                candidates,
                (#[trigger] matches.found[i]).expr,
            ),
{
    lemma_candidate_first(
        cx,
        candidates,
        candidates.len(),
        Matches { found: Seq::empty(), used: Seq::empty() },
    );
}

/// What a call calls makes no difference to the candidates within it: these are its arguments and
/// what is within them.
pub proof fn law_called_function_is_no_candidate<T>(
    a: Expr,
    b: Expr,
    codemap: Seq<FileView>,
    lx: Lexing,
    data: DataOf<T>,
)
    requires
        a.is_call,
        b.is_call,
        a.children@.len() > 0,
        b.children@.len() > 0,
        a.children@.skip(1) == b.children@.skip(1),
    ensures
        candidates_in(a.operands(), codemap, lx, data) == candidates_in(
            a.children@.skip(1),
            codemap,
            lx,
            data,
        ),
        candidates_in(a.operands(), codemap, lx, data) == candidates_in(
            b.operands(),
            codemap,
            lx,
            data,
        ),
{
    assert(a.operands() =~= a.children@.skip(1));
    assert(b.operands() =~= b.children@.skip(1));
}

/// Once candidates were put into a map, each of them, and each within them, is found there under
/// its hash, and what was there before still is.
pub proof fn law_candidates_are_found_by_hash<T>(
    map: Map<u64, Seq<CandidateView<T>>>,
    candidates: Seq<CandidateView<T>>,
)
    ensures
        forall|i: int|
            0 <= i < all_candidates(candidates).len() ==> {
                let candidate = #[trigger] all_candidates(candidates)[i];
                &&& filed(map, all_candidates(candidates)).contains_key(candidate.hash)
                &&& filed(map, all_candidates(candidates))[candidate.hash].contains(candidate)
            },
        forall|hash: u64| #[trigger]
            map.contains_key(hash) ==> filed(map, all_candidates(candidates)).contains_key(hash)
                && map[hash].is_prefix_of(filed(map, all_candidates(candidates))[hash]),
{
    let all = all_candidates(candidates);
    assert forall|i: int| 0 <= i < all.len() implies {
        let candidate = #[trigger] all[i];
        &&& filed(map, all).contains_key(candidate.hash)
        &&& filed(map, all)[candidate.hash].contains(candidate)
    } by {
        let candidate = all[i];
        let same_hash = with_hash(all, candidate.hash);
        all.lemma_filter_contains(|c: CandidateView<T>| c.hash == candidate.hash, i);
        assert(same_hash.contains(candidate));
        let k = choose|k: int| 0 <= k < same_hash.len() && same_hash[k] == candidate;
        let before = bucket(map, candidate.hash);
        assert((before + same_hash)[before.len() + k] == candidate);
    }
    assert forall|hash: u64| #[trigger] map.contains_key(hash) implies filed(map, all).contains_key(
        hash,
    ) && map[hash].is_prefix_of(filed(map, all)[hash]) by {
        let longer = map[hash] + with_hash(all, hash);
        assert(map[hash] =~= longer.subrange(0, map[hash].len() as int));
    }
}

/// The paths of the candidates that became placeholders, the longest candidates first.
pub open spec fn picks(outcomes: Seq<Outcome>) -> Seq<Seq<int>>
    decreases outcomes,
{
    if outcomes.len() == 0 {
        Seq::empty()
    } else {
        picks(outcomes.drop_last()) + picks_one(outcomes.last(), outcomes.len() - 1)
    }
}

pub open spec fn picks_one(outcome: Outcome, i: int) -> Seq<Seq<int>>
    decreases outcome,
{
    match outcome {
        Outcome::Used(_) => seq![seq![i]],
        Outcome::Passed(inner) => {
            let within = picks(inner);
            Seq::new(within.len(), |k: int| seq![i] + within[k])
        },
    }
}

proof fn lemma_picks<'a>(
    candidates: Seq<CandidateView<&'a Expr>>,
    outcomes: Seq<Outcome>,
    left: Seq<CandidateView<&'a Expr>>,
)
    requires
        outcomes.len() <= candidates.len(),
        forall|i: int|
            0 <= i < outcomes.len() ==> is_outcome(
                longest_first(candidates)[i],
                #[trigger] outcomes[i],
            ),
        outcomes.len() <= left.len(),
        resorted_by(candidates, outcomes) == left.take(outcomes.len() as int),
    ensures
        are_picked(left, picks(outcomes), found_by(candidates, outcomes)),
        forall|k: int|
            0 <= k < picks(outcomes).len() ==> (#[trigger] picks(outcomes)[k]).len() > 0 && 0
                <= picks(outcomes)[k][0] < outcomes.len(),
    decreases outcomes,
{
    if outcomes.len() > 0 {
        let n = outcomes.len() - 1;
        let before = outcomes.drop_last();
        let candidate = longest_first(candidates)[n];
        let outcome = outcomes.last();
        assert(is_outcome(candidate, outcomes[n]));
        assert forall|i: int| 0 <= i < before.len() implies is_outcome(
            longest_first(candidates)[i],
            #[trigger] before[i],
        ) by {
            assert(before[i] == outcomes[i]);
        }
        lemma_resorted_len(candidates, before);
        assert(resorted_by(candidates, before) =~= left.take(n)) by {
            assert forall|i: int| 0 <= i < n implies #[trigger] resorted_by(candidates, before)[i]
                == left[i] by {
                assert(left.take(n + 1)[i] == left[i]);
            }
        }
        assert(left[n] == resorted_by_one(candidate, outcome)) by {
            assert(left.take(n + 1)[n] == left[n]);
        }
        lemma_picks(candidates, before, left);
        lemma_picks_one(candidate, outcome, left, n);
        let earlier = picks(before);
        let here = picks_one(outcome, n);
        let paths = picks(outcomes);
        let found = found_by(candidates, outcomes);
        assert forall|k: int| 0 <= k < paths.len() implies (at_path(
            left,
            #[trigger] paths[k],
        ) matches Some(c) && *c.data == found[k].expr) && paths[k].len() > 0 && 0 <= paths[k][0]
            < outcomes.len() by {
            if k < earlier.len() {
                assert(paths[k] == earlier[k]);
            } else {
                assert(paths[k] == here[k - earlier.len()]);
            }
        }
        assert forall|k: int, l: int|
            0 <= k < paths.len() && 0 <= l < paths.len() && k != l implies !(
        #[trigger] paths[k]).is_prefix_of(#[trigger] paths[l]) by {
            let m = earlier.len() as int;
            if k < m && l < m {
                assert(paths[k] == earlier[k] && paths[l] == earlier[l]);
            } else if k >= m && l >= m {
                assert(paths[k] == here[k - m] && paths[l] == here[l - m]);
            } else {
                if k < m {
                    assert(paths[k] == earlier[k] && paths[l] == here[l - m]);
                } else {
                    assert(paths[k] == here[k - m] && paths[l] == earlier[l]);
                }
                if paths[k].is_prefix_of(paths[l]) {
                    assert(paths[l].subrange(0, paths[k].len() as int)[0] == paths[l][0]);
                }
            }
        }
    }
}

proof fn lemma_picks_one<'a>(
    candidate: CandidateView<&'a Expr>,
    outcome: Outcome,
    left: Seq<CandidateView<&'a Expr>>,
    n: int,
)
    requires
        is_outcome(candidate, outcome),
        0 <= n < left.len(),
        left[n] == resorted_by_one(candidate, outcome),
    ensures
        are_picked(left, picks_one(outcome, n), found_by_one(candidate, outcome)),
        forall|k: int|
            0 <= k < picks_one(outcome, n).len() ==> (#[trigger] picks_one(outcome, n)[k]).len() > 0
                && picks_one(outcome, n)[k][0] == n,
    decreases outcome,
{
    if let Outcome::Passed(inner) = outcome {
        let children = candidate.children;
        let within = picks(inner);
        let paths = picks_one(outcome, n);
        let found = found_by(children, inner);
        lemma_resorted_len(children, inner);
        assert(resorted_by(children, inner) =~= left[n].children.take(inner.len() as int));
        lemma_picks(children, inner, left[n].children);
        assert forall|k: int| 0 <= k < paths.len() implies (at_path(
            left,
            #[trigger] paths[k],
        ) matches Some(c) && *c.data == found[k].expr) by {
            assert(within[k].len() > 0);
            assert(paths[k].skip(1) =~= within[k]);
        }
        assert forall|k: int, l: int|
            0 <= k < paths.len() && 0 <= l < paths.len() && k != l implies !(
        #[trigger] paths[k]).is_prefix_of(#[trigger] paths[l]) by {
            if paths[k].is_prefix_of(paths[l]) {
                let (a, b) = (within[k], within[l]);
                assert forall|i: int| 0 <= i < a.len() implies #[trigger] a[i] == b.subrange(
                    0,
                    a.len() as int,
                )[i] by {
                    assert(paths[l].subrange(0, paths[k].len() as int)[i + 1] == paths[k][i + 1]);
                }
                assert(a =~= b.subrange(0, a.len() as int));
            }
        }
    }
}

proof fn lemma_resorted_len<'a>(
    candidates: Seq<CandidateView<&'a Expr>>,
    outcomes: Seq<Outcome>,
)
    ensures
        resorted_by(candidates, outcomes).len() == outcomes.len(),
    decreases outcomes.len(),
{
    if outcomes.len() > 0 {
        lemma_resorted_len(candidates, outcomes.drop_last());
    }
}

/// Of the placeholders that come of one search, none comes from a candidate within that of another.
/// This holds whatever the lexer does.
pub proof fn law_no_placeholder_lies_within_another<'a>(
    candidates: Seq<CandidateView<&'a Expr>>,
    outcomes: Seq<Outcome>,
)
    requires
        are_outcomes(candidates, outcomes),
    ensures
        none_lies_within_another(
            resorted_by(candidates, outcomes),
            found_by(candidates, outcomes),
        ),
{
    let left = resorted_by(candidates, outcomes);
    lemma_resorted_len(candidates, outcomes);
    assert(left.take(outcomes.len() as int) =~= left);
    lemma_picks(candidates, outcomes, left);
}

proof fn lemma_uses_one<'a>(cx: MatchContext, candidate: CandidateView<&'a Expr>, before: Matches)
    requires
        uses_stand_apart(before.used),
    ensures
        matched_one(cx, candidate, before) matches Ok(matches) ==> uses_stand_apart(matches.used),
    decreases candidate, 0nat,
{
    match use_of(cx, candidate, before.used) {
        Err(_) => {},
        Ok(None) => {
            lemma_uses_first(cx, candidate.children, candidate.children.len(), before);
        },
        Ok(Some(span)) => {
            let text = snippet_in(
                cx.codemap,
                candidate.data.span.lo as int,
                candidate.data.span.hi as int,
            )->0;
            law_use_is_first_free_match(
                cx,
                (cx.lex)(text),
                cx.other_candidates[candidate.hash],
                before.used,
            );
            lemma_free_use_stands_apart(before.used, span);
        },
    }
}

proof fn lemma_uses_first<'a>(
    cx: MatchContext,
    candidates: Seq<CandidateView<&'a Expr>>,
    n: nat,
    before: Matches,
)
    requires
        uses_stand_apart(before.used),
    ensures
        matched_first(cx, candidates, n, before) matches Ok(matches) ==> uses_stand_apart(
            matches.used,
        ),
    decreases candidates, n,
{
    if 0 < n <= candidates.len() {
        lemma_uses_first(cx, candidates, (n - 1) as nat, before);
        if let Ok(so_far) = matched_first(cx, candidates, (n - 1) as nat, before) {
            lemma_arranged_items(candidates, shortness_keys(candidates));
            lemma_uses_one(
                cx,
                candidates[stable_order(shortness_keys(candidates))[n - 1]],
                so_far,
            );
        }
    }
}

proof fn lemma_free_use_stands_apart(used: Seq<Span>, span: Span)
    requires
        uses_stand_apart(used),
        is_free(used, span),
    ensures
        uses_stand_apart(used.push(span)),
{
    let longer = used.push(span);
    assert forall|i: int, j: int| 0 <= i < j < longer.len() implies !overlap(
        #[trigger] longer[i],
        #[trigger] longer[j],
    ) by {
        assert(longer[i] == used[i]);
        if j < used.len() {
            assert(longer[j] == used[j]);
        }
    }
}

/// Where no two places in use contain one another, none do after a search, so that each piece of
/// the changed code is used at most once.
pub proof fn law_uses_stay_apart<'a>(
    cx: MatchContext,
    candidates: Seq<CandidateView<&'a Expr>>,
    before: Matches,
)
    requires
        uses_stand_apart(before.used),
    ensures
        matched(cx, candidates, before) matches Ok(matches) ==> uses_stand_apart(matches.used),
{
    lemma_uses_first(cx, candidates, candidates.len(), before);
}

} // verus!
