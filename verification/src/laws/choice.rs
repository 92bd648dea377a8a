use crate::analysis::{lone_file, match_context, ChangedSideView};
use crate::candidate::{all_candidates, filed, with_hash, CandidateView};
use crate::codemap::{snippet_in, FileView};
use crate::error::RuleError;
use crate::hir::Expr;
use crate::laws::matching::{has_tokens, law_use_is_first_free_match};
use crate::laws::reproduction::lemma_all_candidates_add;
use crate::matcher::{
    first_use, is_free, longest_first, matched, matched_first, matched_one, overlap, resorted,
    resorted_first, resorted_one, shortness_keys, use_of, MatchContext, Matches, PlaceholderView,
};
use crate::order::{comes_before, lemma_order_exists, stable_order};
use crate::span::{RelativeSpan, Span};
use crate::token::{Lexing, TokenView};
use vstd::prelude::*;

verus! {

/// Candidates in the order in which a tree is visited: each before those within it, and these
/// before the next one.
pub open spec fn in_order_of_visits<T>(candidates: Seq<CandidateView<T>>) -> Seq<CandidateView<T>>
    decreases candidates,
{
    if candidates.len() == 0 {
        Seq::empty()
    } else {
        seq![candidates[0]] + in_order_of_visits(candidates[0].children) + in_order_of_visits(
            candidates.skip(1),
        )
    }
}

/// All candidates are those of a list and the ones within them, in the order of visits.
pub proof fn law_all_candidates_are_in_order_of_visits<T>(candidates: Seq<CandidateView<T>>)
    ensures
        all_candidates(candidates) == in_order_of_visits(candidates),
    decreases candidates,
{
    if candidates.len() > 0 {
        let first = candidates[0];
        let one = seq![first];
        let rest = candidates.skip(1);
        assert(candidates =~= one + rest);
        lemma_all_candidates_add(one, rest);
        law_all_candidates_are_in_order_of_visits(first.children);
        law_all_candidates_are_in_order_of_visits(rest);
        assert(one.drop_last() =~= Seq::empty());
        assert(all_candidates(one.drop_last()) =~= Seq::empty());
        assert(one.last() == first);
        assert(all_candidates(one) =~= one + all_candidates(first.children));
    }
}

/// Whether one span has all of another, whose ends are in order.
pub open spec fn has_all_of(a: Span, b: Span) -> bool {
    a.lo <= b.lo && b.lo <= b.hi && b.hi <= a.hi
}

/// Whether a candidate of the original code can become a placeholder that is used where a candidate
/// of the changed code stands: the two have the same hash, their texts have the same tokens, and no
/// place in use has all of that place or lies within it.
pub open spec fn can_be_used(
    codemap: Seq<FileView>,
    lx: Lexing,
    other: FileView,
    used: Seq<Span>,
    candidate: CandidateView<&Expr>,
    twin: CandidateView<RelativeSpan>,
) -> bool {
    let place = twin.data.at(other);
    &&& twin.hash == candidate.hash
    &&& snippet_in(
        codemap,
        candidate.data.span.lo as int,
        candidate.data.span.hi as int,
    ) matches Some(text) && (other.snippet(place.lo as int, place.hi as int) matches Some(twin_text)
        && lx(text) == lx(twin_text))
    &&& forall|i: int|
        0 <= i < used.len() ==> !has_all_of(#[trigger] used[i], place) && !has_all_of(
            place,
            used[i],
        )
}

/// Whether a twin is the first of the candidates of the changed code, in the order of visits, where
/// a candidate of the original code can be used.
pub open spec fn is_first_choice(
    codemap: Seq<FileView>,
    lx: Lexing,
    changed_side: ChangedSideView,
    modified_source: Seq<char>,
    used: Seq<Span>,
    candidate: CandidateView<&Expr>,
    k: int,
) -> bool {
    let twins = in_order_of_visits(changed_side.candidate_placeholders);
    let other = lone_file(modified_source);
    &&& 0 <= k < twins.len()
    &&& can_be_used(codemap, lx, other, used, candidate, twins[k])
    &&& forall|j: int|
        0 <= j < k ==> !can_be_used(codemap, lx, other, used, candidate, #[trigger] twins[j])
}

/// Whether there is no candidate of the changed code where a candidate of the original code can be
/// used.
pub open spec fn has_no_choice(
    codemap: Seq<FileView>,
    lx: Lexing,
    changed_side: ChangedSideView,
    modified_source: Seq<char>,
    used: Seq<Span>,
    candidate: CandidateView<&Expr>,
) -> bool {
    let twins = in_order_of_visits(changed_side.candidate_placeholders);
    forall|k: int|
        0 <= k < twins.len() ==> !can_be_used(
            codemap,
            lx,
            lone_file(modified_source),
            used,
            candidate,
            #[trigger] twins[k],
        )
}

/// A place is free if no place in use has all of it or lies within it.
pub proof fn law_free_place_touches_none_in_use(used: Seq<Span>, place: Span)
    ensures
        is_free(used, place) <==> forall|i: int|
            0 <= i < used.len() ==> !has_all_of(#[trigger] used[i], place) && !has_all_of(
                place,
                used[i],
            ),
{
    if is_free(used, place) {
        assert forall|i: int| 0 <= i < used.len() implies !has_all_of(#[trigger] used[i], place)
            && !has_all_of(place, used[i]) by {
            assert(!overlap(used[i], place));
        }
    }
}

/// Those of a list that have a hash, in the same order.
pub open spec fn those_with_hash<T>(list: Seq<CandidateView<T>>, hash: u64) -> Seq<CandidateView<T>>
    decreases list.len(),
{
    if list.len() == 0 {
        Seq::empty()
    } else if list[0].hash == hash {
        seq![list[0]] + those_with_hash(list.skip(1), hash)
    } else {
        those_with_hash(list.skip(1), hash)
    }
}

proof fn lemma_those_with_hash<T>(list: Seq<CandidateView<T>>, hash: u64)
    ensures
        with_hash(list, hash) == those_with_hash(list, hash),
    decreases list.len(),
{
    let pred = |c: CandidateView<T>| c.hash == hash;
    reveal(Seq::filter);
    if list.len() > 0 {
        let one = seq![list[0]];
        let rest = list.skip(1);
        lemma_those_with_hash(rest, hash);
        assert(list =~= one + rest);
        Seq::filter_distributes_over_add(one, rest, pred);
        assert(one.drop_last() =~= Seq::empty());
        assert(one.drop_last().filter(pred) =~= Seq::empty());
        assert(one.last() == list[0]);
        if list[0].hash == hash {
            assert(one.filter(pred) =~= one);
        } else {
            assert(one.filter(pred) =~= Seq::empty());
        }
        assert(with_hash(list, hash) =~= those_with_hash(list, hash));
    }
}

/// Filing candidates puts those with a hash behind what was filed under that hash, all of them and
/// in the order in which they come. There is an entry for a hash if there was one or a candidate
/// has that hash.
pub proof fn law_candidates_are_filed_behind_others<T>(
    map: Map<u64, Seq<CandidateView<T>>>,
    list: Seq<CandidateView<T>>,
    hash: u64,
)
    ensures
        filed(map, list).contains_key(hash) <==> map.contains_key(hash) || exists|i: int|
            0 <= i < list.len() && (#[trigger] list[i]).hash == hash,
        filed(map, list).contains_key(hash) ==> filed(map, list)[hash] == (if map.contains_key(
            hash,
        ) {
            map[hash]
        } else {
            Seq::empty()
        }) + those_with_hash(list, hash),
{
    let pred = |c: CandidateView<T>| c.hash == hash;
    let same = with_hash(list, hash);
    lemma_those_with_hash(list, hash);
    if exists|i: int| 0 <= i < list.len() && (#[trigger] list[i]).hash == hash {
        let i = choose|i: int| 0 <= i < list.len() && (#[trigger] list[i]).hash == hash;
        list.lemma_filter_contains(pred, i);
        assert(same.contains(list[i]));
    }
    if same.len() > 0 {
        list.lemma_filter_pred(pred, 0);
        lemma_first_by_hash(list, hash, 0);
        let n = choose|n: int| 0 <= n < list.len() && #[trigger] list[n] == same[0];
        assert(list[n].hash == hash);
    }
}

/// What is first in what a condition leaves of a list is what is first in the list.
proof fn lemma_first_by_hash<T>(list: Seq<CandidateView<T>>, hash: u64, k: int)
    requires
        0 <= k < with_hash(list, hash).len(),
    ensures
        exists|n: int|
            {
                &&& 0 <= n < list.len()
                &&& #[trigger] list[n] == with_hash(list, hash)[k]
                &&& forall|m: int|
                    0 <= m < n && (#[trigger] list[m]).hash == hash ==> exists|j: int|
                        0 <= j < k && with_hash(list, hash)[j] == list[m]
            },
    decreases list.len(),
{
    reveal(Seq::filter);
    let pred = |c: CandidateView<T>| c.hash == hash;
    let before = list.drop_last();
    let shorter = with_hash(before, hash);
    let longer = with_hash(list, hash);
    if k < shorter.len() {
        lemma_first_by_hash(before, hash, k);
        let n = choose|n: int|
            {
                &&& 0 <= n < before.len()
                &&& #[trigger] before[n] == shorter[k]
                &&& forall|m: int|
                    0 <= m < n && (#[trigger] before[m]).hash == hash ==> exists|j: int|
                        0 <= j < k && shorter[j] == before[m]
            };
        assert(list[n] == longer[k]);
        assert forall|m: int| 0 <= m < n && (#[trigger] list[m]).hash == hash implies exists|j: int|
            0 <= j < k && longer[j] == list[m] by {
            assert(before[m] == list[m]);
            let j = choose|j: int| 0 <= j < k && shorter[j] == before[m];
            assert(longer[j] == shorter[j]);
        }
    } else {
        let n = list.len() - 1;
        assert(list[n] == longer[k]);
        assert forall|m: int| 0 <= m < n && (#[trigger] list[m]).hash == hash implies exists|j: int|
            0 <= j < k && longer[j] == list[m] by {
            assert(before[m] == list[m]);
            before.lemma_filter_contains(pred, m);
            let j = choose|j: int| 0 <= j < shorter.len() && shorter[j] == before[m];
            assert(longer[j] == shorter[j]);
        }
    }
}

/// A place is where one of a list of candidates can be used.
proof fn lemma_use_of_is_first_choice(
    codemap: Seq<FileView>,
    lx: Lexing,
    changed_side: ChangedSideView,
    modified_source: Seq<char>,
    candidate: CandidateView<&Expr>,
    used: Seq<Span>,
)
    ensures
        match use_of(
            match_context(codemap, lx, changed_side, modified_source),
            candidate,
            used,
        ) {
            Ok(Some(span)) => exists|k: int| #[trigger]
                is_first_choice(
                    codemap,
                    lx,
                    changed_side,
                    modified_source,
                    used,
                    candidate,
                    k,
                ) && span == in_order_of_visits(
                    changed_side.candidate_placeholders,
                )[k].data.at(lone_file(modified_source)),
            Ok(None) => has_no_choice(
                codemap,
                lx,
                changed_side,
                modified_source,
                used,
                candidate,
            ),
            Err(_) => true,
        },
{
    let cx = match_context(codemap, lx, changed_side, modified_source);
    let other = lone_file(modified_source);
    let twins = in_order_of_visits(changed_side.candidate_placeholders);
    law_all_candidates_are_in_order_of_visits(changed_side.candidate_placeholders);
    let hash = candidate.hash;
    let others = with_hash(twins, hash);
    let pred = |c: CandidateView<RelativeSpan>| c.hash == hash;
    assert forall|k: int| 0 <= k < twins.len() && (#[trigger] twins[k]).hash == hash implies exists|
        j: int,
    |
        0 <= j < others.len() && others[j] == twins[k] by {
        twins.lemma_filter_contains(pred, k);
    }
    assert forall|j: int| 0 <= j < others.len() implies (#[trigger] others[j]).hash == hash by {
        lemma_first_by_hash(twins, hash, j);
        twins.lemma_filter_pred(pred, j);
    }
    if cx.other_candidates.contains_key(hash) {
        assert(cx.other_candidates[hash] =~= others);
        if let Some(text) = snippet_in(
            codemap,
            candidate.data.span.lo as int,
            candidate.data.span.hi as int,
        ) {
            let tokens = lx(text);
            law_use_is_first_free_match(cx, tokens, others, used);
            assert forall|j: int| 0 <= j < others.len() implies can_be_used(
                codemap,
                lx,
                other,
                used,
                candidate,
                #[trigger] others[j],
            ) == (has_tokens(cx, others[j].data.at(other), tokens)
                && is_free(used, others[j].data.at(other))) by {
                law_free_place_touches_none_in_use(used, others[j].data.at(other));
            }
            match first_use(cx, tokens, others, used) {
                Ok(Some(span)) => {
                    let k = choose|k: int|
                        {
                            &&& 0 <= k < others.len()
                            &&& (#[trigger] others[k]).data.at(cx.other_filemap) == span
                            &&& has_tokens(cx, span, tokens)
                            &&& is_free(used, span)
                            &&& forall|j: int|
                                0 <= j < k ==> !(has_tokens(
                                    cx,
                                    (#[trigger] others[j]).data.at(cx.other_filemap),
                                    tokens,
                                ) && is_free(used, others[j].data.at(cx.other_filemap)))
                        };
                    lemma_first_by_hash(twins, hash, k);
                    let n = choose|n: int|
                        {
                            &&& 0 <= n < twins.len()
                            &&& #[trigger] twins[n] == others[k]
                            &&& forall|m: int|
                                0 <= m < n && (#[trigger] twins[m]).hash == hash ==> exists|j: int|
                                    0 <= j < k && others[j] == twins[m]
                        };
                    assert forall|m: int| 0 <= m < n implies !can_be_used(
                        codemap,
                        lx,
                        other,
                        used,
                        candidate,
                        #[trigger] twins[m],
                    ) by {
                        if twins[m].hash == hash {
                            let j = choose|j: int| 0 <= j < k && others[j] == twins[m];
                            assert(!can_be_used(codemap, lx, other, used, candidate, others[j]));
                        }
                    }
                    assert(can_be_used(codemap, lx, other, used, candidate, others[k]));
                    assert(is_first_choice(
                        codemap,
                        lx,
                        changed_side,
                        modified_source,
                        used,
                        candidate,
                        n,
                    ));
                },
                Ok(None) => {
                    assert forall|k: int| 0 <= k < twins.len() implies !can_be_used(
                        codemap,
                        lx,
                        other,
                        used,
                        candidate,
                        #[trigger] twins[k],
                    ) by {
                        if twins[k].hash == hash {
                            let j = choose|j: int| 0 <= j < others.len() && others[j] == twins[k];
                            assert(!can_be_used(codemap, lx, other, used, candidate, others[j]));
                        }
                    }
                },
                Err(_) => {},
            }
        }
    } else {
        assert(others.len() == 0);
    }
}

/// A candidate becomes a placeholder if and only if it can be used somewhere in the changed code,
/// whatever kind of expression it is. It is used at the first such place. Where it cannot be used,
/// what is within it is looked at instead.
pub proof fn law_candidate_becomes_placeholder_where_it_can(
    codemap: Seq<FileView>,
    lx: Lexing,
    changed_side: ChangedSideView,
    modified_source: Seq<char>,
    candidate: CandidateView<&Expr>,
    before: Matches,
    after: Matches,
)
    requires
        matched_one(
            match_context(codemap, lx, changed_side, modified_source),
            candidate,
            before,
        ) == Ok::<Matches, RuleError>(after),
    ensures
        has_no_choice(codemap, lx, changed_side, modified_source, before.used, candidate)
            ==> matched(
            match_context(codemap, lx, changed_side, modified_source),
            candidate.children,
            before,
        ) == Ok::<Matches, RuleError>(after),
        !has_no_choice(codemap, lx, changed_side, modified_source, before.used, candidate)
            ==> exists|k: int|
            {
                let place = in_order_of_visits(
                    changed_side.candidate_placeholders,
                )[k].data.at(lone_file(modified_source));
                &&& #[trigger] is_first_choice(
                    codemap,
                    lx,
                    changed_side,
                    modified_source,
                    before.used,
                    candidate,
                    k,
                )
                &&& after.found == before.found.push(
                    PlaceholderView { expr: *candidate.data, uses: seq![place] },
                )
                &&& after.used == before.used.push(place)
            },
{
    lemma_use_of_is_first_choice(
        codemap,
        lx,
        changed_side,
        modified_source,
        candidate,
        before.used,
    );
}

/// How long the code of a candidate is.
pub open spec fn code_length(candidate: CandidateView<&Expr>) -> int {
    if candidate.data.span.lo <= candidate.data.span.hi {
        candidate.data.span.hi - candidate.data.span.lo
    } else {
        0
    }
}

/// Whether `order` names every one of `n` entries once.
pub open spec fn names_each_once(order: Seq<int>, n: nat) -> bool {
    &&& order.len() == n
    &&& order.no_duplicates()
    &&& forall|i: int| 0 <= i < n ==> 0 <= #[trigger] order[i] < n
}

/// Whether `order` names every candidate once, longer ones before shorter ones, and those of the
/// same length in the order in which they come.
pub open spec fn is_longest_first(candidates: Seq<CandidateView<&Expr>>, order: Seq<int>) -> bool {
    &&& names_each_once(order, candidates.len())
    &&& forall|i: int, j: int|
        0 <= i < j < order.len() ==> {
            let a = candidates[#[trigger] order[i]];
            let b = candidates[#[trigger] order[j]];
            code_length(a) > code_length(b) || (code_length(a) == code_length(b) && order[i]
                < order[j])
        }
}

proof fn lemma_longest_first(candidates: Seq<CandidateView<&Expr>>)
    ensures
        is_longest_first(candidates, stable_order(shortness_keys(candidates))),
        forall|i: int|
            0 <= i < candidates.len() ==> #[trigger] longest_first(candidates)[i]
                == candidates[stable_order(shortness_keys(candidates))[i]],
{
    let keys = shortness_keys(candidates);
    let order = stable_order(keys);
    lemma_order_exists(keys);
    assert forall|i: int, j: int| 0 <= i < j < order.len() implies {
        let a = candidates[#[trigger] order[i]];
        let b = candidates[#[trigger] order[j]];
        code_length(a) > code_length(b) || (code_length(a) == code_length(b) && order[i] < order[j])
    } by {
        assert(comes_before(keys, order[i], order[j]));
    }
    assert(order.no_duplicates()) by {
        assert forall|i: int, j: int|
            0 <= i < order.len() && 0 <= j < order.len() && i != j implies order[i] != order[j] by {
            if i < j {
                assert(comes_before(keys, order[i], order[j]));
            } else {
                assert(comes_before(keys, order[j], order[i]));
            }
        }
    }
}

/// Whether `trace` has what was found before the first candidate in an order was looked at, then
/// what was found after each.
pub open spec fn is_trace(
    cx: MatchContext,
    candidates: Seq<CandidateView<&Expr>>,
    order: Seq<int>,
    trace: Seq<Matches>,
    before: Matches,
) -> bool {
    &&& 0 < trace.len() <= order.len() + 1
    &&& trace[0] == before
    &&& forall|i: int|
        0 <= i < trace.len() - 1 ==> matched_one(cx, candidates[order[i]], #[trigger] trace[i])
            == Ok::<Matches, RuleError>(trace[i + 1])
}

/// The candidates of the changed code that are filed under a hash.
pub open spec fn others_under(cx: MatchContext, hash: u64) -> Seq<CandidateView<RelativeSpan>> {
    if cx.other_candidates.contains_key(hash) {
        cx.other_candidates[hash]
    } else {
        Seq::empty()
    }
}

/// Whether a candidate of the original code can be used where one of the changed code stands: their
/// texts have the same tokens, and no place in use has all of that place or lies within it.
pub open spec fn can_stand_at(
    cx: MatchContext,
    used: Seq<Span>,
    candidate: CandidateView<&Expr>,
    twin: CandidateView<RelativeSpan>,
) -> bool {
    let place = twin.data.at(cx.other_filemap);
    &&& snippet_in(
        cx.codemap,
        candidate.data.span.lo as int,
        candidate.data.span.hi as int,
    ) matches Some(text) && (cx.other_filemap.snippet(
        place.lo as int,
        place.hi as int,
    ) matches Some(twin_text) && (cx.lex)(text) == (cx.lex)(twin_text))
    &&& forall|i: int|
        0 <= i < used.len() ==> !has_all_of(#[trigger] used[i], place) && !has_all_of(
            place,
            used[i],
        )
}

/// Whether the first of the candidates under a hash that a candidate can stand at is number `k`.
pub open spec fn is_first_under_hash(
    cx: MatchContext,
    used: Seq<Span>,
    candidate: CandidateView<&Expr>,
    k: int,
) -> bool {
    &&& 0 <= k < others_under(cx, candidate.hash).len()
    &&& can_stand_at(cx, used, candidate, others_under(cx, candidate.hash)[k])
    &&& forall|j: int|
        0 <= j < k ==> !can_stand_at(
            cx,
            used,
            candidate,
            #[trigger] others_under(cx, candidate.hash)[j],
        )
}

/// Whether there is none under its hash that a candidate can stand at.
pub open spec fn has_none_under_hash(
    cx: MatchContext,
    used: Seq<Span>,
    candidate: CandidateView<&Expr>,
) -> bool {
    forall|k: int|
        0 <= k < others_under(cx, candidate.hash).len() ==> !can_stand_at(
            cx,
            used,
            candidate,
            #[trigger] others_under(cx, candidate.hash)[k],
        )
}

/// Whether a candidate of the changed code cannot be compared, and the error says why: it is not a
/// place of the changed file, or it has no text.
pub open spec fn cannot_be_compared(
    cx: MatchContext,
    twin: CandidateView<RelativeSpan>,
    error: RuleError,
) -> bool {
    let place = twin.data.at(cx.other_filemap);
    ||| error is SpanOutsideFile && !twin.data.fits(cx.other_filemap)
    ||| error is NoSnippet && twin.data.fits(cx.other_filemap) && cx.other_filemap.snippet(
        place.lo as int,
        place.hi as int,
    ) is None
}

/// Whether a candidate of the changed code can be compared: it is a place of the changed file and
/// has a text.
pub open spec fn can_be_compared(cx: MatchContext, twin: CandidateView<RelativeSpan>) -> bool {
    let place = twin.data.at(cx.other_filemap);
    twin.data.fits(cx.other_filemap) && cx.other_filemap.snippet(
        place.lo as int,
        place.hi as int,
    ) is Some
}

/// Whether number `k` of the candidates under a hash is where the search for a place stops: all
/// before it can be compared, and a candidate can stand at none of these.
pub open spec fn is_reached(
    cx: MatchContext,
    used: Seq<Span>,
    candidate: CandidateView<&Expr>,
    others: Seq<CandidateView<RelativeSpan>>,
    k: int,
) -> bool {
    &&& 0 <= k < others.len()
    &&& forall|j: int|
        0 <= j < k ==> can_be_compared(cx, #[trigger] others[j]) && !can_stand_at(
            cx,
            used,
            candidate,
            others[j],
        )
}

/// Whether the text of a candidate can be had.
pub open spec fn has_text(cx: MatchContext, candidate: CandidateView<&Expr>) -> bool {
    snippet_in(
        cx.codemap,
        candidate.data.span.lo as int,
        candidate.data.span.hi as int,
    ) is Some
}

/// A candidate is used at the first of those under its hash that it can stand at, whatever kind of
/// expression it is, and nowhere if there is none. It fails only where something is filed under its
/// hash and its text cannot be had, or where one of those under its hash is reached and cannot be
/// compared.
pub proof fn law_use_is_first_under_hash(
    cx: MatchContext,
    candidate: CandidateView<&Expr>,
    used: Seq<Span>,
)
    ensures
        match use_of(cx, candidate, used) {
            Ok(Some(span)) => exists|k: int|
                {
                    &&& #[trigger] is_first_under_hash(cx, used, candidate, k)
                    &&& is_reached(cx, used, candidate, others_under(cx, candidate.hash), k)
                    &&& can_be_compared(cx, others_under(cx, candidate.hash)[k])
                    &&& span == others_under(cx, candidate.hash)[k].data.at(cx.other_filemap)
                },
            Ok(None) => {
                &&& has_none_under_hash(cx, used, candidate)
                &&& cx.other_candidates.contains_key(candidate.hash) ==> has_text(cx, candidate)
                &&& forall|k: int|
                    0 <= k < others_under(cx, candidate.hash).len() ==> can_be_compared(
                        cx,
                        #[trigger] others_under(cx, candidate.hash)[k],
                    )
            },
            Err(e) => if has_text(cx, candidate) {
                exists|k: int|
                    {
                        &&& #[trigger] is_reached(
                            cx,
                            used,
                            candidate,
                            others_under(cx, candidate.hash),
                            k,
                        )
                        &&& cannot_be_compared(cx, others_under(cx, candidate.hash)[k], e)
                    }
            } else {
                e is NoSnippet && cx.other_candidates.contains_key(candidate.hash)
            },
        },
{
    let others = others_under(cx, candidate.hash);
    if cx.other_candidates.contains_key(candidate.hash) && has_text(cx, candidate) {
        let text = snippet_in(
            cx.codemap,
            candidate.data.span.lo as int,
            candidate.data.span.hi as int,
        )->0;
        lemma_first_use(cx, candidate, (cx.lex)(text), others, used);
        if let Ok(Some(span)) = use_of(cx, candidate, used) {
            let k = choose|k: int|
                {
                    &&& #[trigger] is_reached(cx, used, candidate, others, k)
                    &&& can_be_compared(cx, others[k])
                    &&& can_stand_at(cx, used, candidate, others[k])
                    &&& span == others[k].data.at(cx.other_filemap)
                };
            assert(is_first_under_hash(cx, used, candidate, k));
        }
    }
}

proof fn lemma_first_use(
    cx: MatchContext,
    candidate: CandidateView<&Expr>,
    tokens: Seq<TokenView>,
    others: Seq<CandidateView<RelativeSpan>>,
    used: Seq<Span>,
)
    requires
        snippet_in(
            cx.codemap,
            candidate.data.span.lo as int,
            candidate.data.span.hi as int,
        ) matches Some(text) && tokens == (cx.lex)(text),
    ensures
        match first_use(cx, tokens, others, used) {
            Ok(Some(span)) => exists|k: int|
                {
                    &&& #[trigger] is_reached(cx, used, candidate, others, k)
                    &&& can_be_compared(cx, others[k])
                    &&& can_stand_at(cx, used, candidate, others[k])
                    &&& span == others[k].data.at(cx.other_filemap)
                },
            Ok(None) => forall|k: int|
                0 <= k < others.len() ==> can_be_compared(cx, #[trigger] others[k])
                    && !can_stand_at(cx, used, candidate, others[k]),
            Err(e) => exists|k: int|
                {
                    &&& #[trigger] is_reached(cx, used, candidate, others, k)
                    &&& cannot_be_compared(cx, others[k], e)
                },
        },
    decreases others.len(),
{
    if others.len() > 0 {
        let first = others[0];
        let rest = others.skip(1);
        law_free_place_touches_none_in_use(used, first.data.at(cx.other_filemap));
        assert(is_reached(cx, used, candidate, others, 0));
        if can_be_compared(cx, first) && !can_stand_at(cx, used, candidate, first) {
            lemma_first_use(cx, candidate, tokens, rest, used);
            assert(first_use(cx, tokens, others, used) == first_use(cx, tokens, rest, used));
            assert forall|k: int| #[trigger] is_reached(cx, used, candidate, rest, k) implies
                is_reached(cx, used, candidate, others, k + 1) && others[k + 1] == rest[k] by {
                assert forall|j: int| 0 <= j < k + 1 implies can_be_compared(
                    cx,
                    #[trigger] others[j],
                ) && !can_stand_at(cx, used, candidate, others[j]) by {
                    if j > 0 {
                        assert(rest[j - 1] == others[j]);
                    }
                }
            }
            if first_use(cx, tokens, rest, used) == Ok::<Option<Span>, RuleError>(None) {
                assert forall|k: int| 0 <= k < others.len() implies can_be_compared(
                    cx,
                    #[trigger] others[k],
                ) && !can_stand_at(cx, used, candidate, others[k]) by {
                    if k > 0 {
                        assert(rest[k - 1] == others[k]);
                    }
                }
            }
        }
    }
}

/// A candidate that can stand somewhere becomes a placeholder that is used at the first such place.
/// One that cannot is none, and what is within it is looked at instead.
pub proof fn law_candidate_is_placeholder_or_looked_into(
    cx: MatchContext,
    candidate: CandidateView<&Expr>,
    before: Matches,
    after: Matches,
)
    requires
        matched_one(cx, candidate, before) == Ok::<Matches, RuleError>(after),
    ensures
        has_none_under_hash(cx, before.used, candidate) ==> matched(
            cx,
            candidate.children,
            before,
        ) == Ok::<Matches, RuleError>(after),
        !has_none_under_hash(cx, before.used, candidate) ==> exists|k: int|
            {
                &&& #[trigger] is_first_under_hash(cx, before.used, candidate, k)
                &&& after.found == before.found.push(
                    PlaceholderView {
                        expr: *candidate.data,
                        uses: seq![
                            others_under(cx, candidate.hash)[k].data.at(cx.other_filemap),
                        ],
                    },
                )
                &&& after.used == before.used.push(
                    others_under(cx, candidate.hash)[k].data.at(cx.other_filemap),
                )
            },
{
    law_use_is_first_under_hash(cx, candidate, before.used);
}

/// Whether looking at candidates leaves them as `left`: in the given order, each as it was if it
/// became a placeholder, and else with what is within it as looking at that leaves it.
pub open spec fn is_left(
    cx: MatchContext,
    candidates: Seq<CandidateView<&Expr>>,
    order: Seq<int>,
    trace: Seq<Matches>,
    left: Seq<CandidateView<&Expr>>,
) -> bool {
    &&& left.len() == candidates.len()
    &&& forall|i: int|
        0 <= i < left.len() ==> {
            let was = candidates[order[i]];
            &&& (#[trigger] left[i]).hash == was.hash
            &&& left[i].data == was.data
            &&& left[i].children == if has_none_under_hash(cx, trace[i].used, was) {
                resorted(cx, was.children, trace[i])
            } else {
                was.children
            }
        }
}

/// Candidates are looked at one after the other, the longest first. What is found for one is known
/// when the next is looked at. Where one of them fails the whole search fails, and else every one
/// is looked at, and the list is left in that order.
pub proof fn law_candidates_are_looked_at_longest_first(
    cx: MatchContext,
    candidates: Seq<CandidateView<&Expr>>,
    before: Matches,
)
    ensures
        exists|order: Seq<int>, trace: Seq<Matches>|
            {
                &&& is_longest_first(candidates, order)
                &&& #[trigger] is_trace(cx, candidates, order, trace, before)
                &&& match matched(cx, candidates, before) {
                    Ok(matches) => {
                        &&& trace.len() == candidates.len() + 1
                        &&& trace.last() == matches
                        &&& is_left(
                            cx,
                            candidates,
                            order,
                            trace,
                            resorted(cx, candidates, before),
                        )
                    },
                    Err(e) => {
                        &&& trace.len() <= candidates.len()
                        &&& matched_one(cx, candidates[order[trace.len() - 1]], trace.last())
                            == Err::<Matches, RuleError>(e)
                    },
                }
            },
{
    let order = stable_order(shortness_keys(candidates));
    let n = candidates.len();
    lemma_longest_first(candidates);
    if matched(cx, candidates, before) is Ok {
        let trace = Seq::new(
            n + 1,
            |i: int| matched_first(cx, candidates, i as nat, before)->Ok_0,
        );
        lemma_all_before_are_ok(cx, candidates, n, before);
        assert forall|i: int| 0 <= i < trace.len() - 1 implies matched_one(
            cx,
            candidates[order[i]],
            #[trigger] trace[i],
        ) == Ok::<Matches, RuleError>(trace[i + 1]) by {
            assert(matched_first(cx, candidates, i as nat, before) is Ok);
            assert(matched_first(cx, candidates, (i + 1) as nat, before) is Ok);
            assert((i + 1) as nat - 1 == i as nat);
            assert(longest_first(candidates)[i] == candidates[order[i]]);
        }
        let left = resorted(cx, candidates, before);
        lemma_resorted_entries(cx, candidates, n, before);
        assert forall|i: int| 0 <= i < left.len() implies {
            let was = candidates[order[i]];
            &&& (#[trigger] left[i]).hash == was.hash
            &&& left[i].data == was.data
            &&& left[i].children == if has_none_under_hash(cx, trace[i].used, was) {
                resorted(cx, was.children, trace[i])
            } else {
                was.children
            }
        } by {
            let was = candidates[order[i]];
            assert(left[i] == resorted_one(cx, longest_first(candidates)[i], trace[i]));
            assert(longest_first(candidates)[i] == was);
            assert(matched_one(cx, was, trace[i]) is Ok);
            law_use_is_first_under_hash(cx, was, trace[i].used);
        }
        assert(is_trace(cx, candidates, order, trace, before));
    } else {
        let m = lemma_first_error(cx, candidates, n, before);
        let trace = Seq::new(
            m + 1,
            |i: int| matched_first(cx, candidates, i as nat, before)->Ok_0,
        );
        lemma_all_before_are_ok(cx, candidates, m, before);
        assert forall|i: int| 0 <= i < trace.len() - 1 implies matched_one(
            cx,
            candidates[order[i]],
            #[trigger] trace[i],
        ) == Ok::<Matches, RuleError>(trace[i + 1]) by {
            assert(matched_first(cx, candidates, i as nat, before) is Ok);
            assert(matched_first(cx, candidates, (i + 1) as nat, before) is Ok);
            assert((i + 1) as nat - 1 == i as nat);
            assert(longest_first(candidates)[i] == candidates[order[i]]);
        }
        assert(longest_first(candidates)[m as int] == candidates[order[m as int]]);
        assert((m + 1) as nat - 1 == m);
        assert(is_trace(cx, candidates, order, trace, before));
        assert(trace.last() == matched_first(cx, candidates, m, before)->Ok_0);
    }
}

/// Whether a candidate of the original code cannot be looked at, and the error says why: its text
/// cannot be had, or a candidate of the changed code under its hash cannot be compared.
pub open spec fn cannot_be_looked_at(
    cx: MatchContext,
    candidate: CandidateView<&Expr>,
    error: RuleError,
) -> bool {
    ||| error is NoSnippet && snippet_in(
        cx.codemap,
        candidate.data.span.lo as int,
        candidate.data.span.hi as int,
    ) is None
    ||| exists|k: int|
        0 <= k < others_under(cx, candidate.hash).len() && cannot_be_compared(
            cx,
            #[trigger] others_under(cx, candidate.hash)[k],
            error,
        )
}

/// Looking at a candidate fails only where it cannot be looked at, or where it can stand nowhere
/// and looking at what is within it fails.
pub proof fn law_looking_at_candidate_fails_for_cause(
    cx: MatchContext,
    candidate: CandidateView<&Expr>,
    before: Matches,
    error: RuleError,
)
    requires
        matched_one(cx, candidate, before) == Err::<Matches, RuleError>(error),
    ensures
        cannot_be_looked_at(cx, candidate, error) || (has_none_under_hash(
            cx,
            before.used,
            candidate,
        ) && matched(cx, candidate.children, before) == Err::<Matches, RuleError>(error)),
{
    law_use_is_first_under_hash(cx, candidate, before.used);
}

proof fn lemma_all_before_are_ok(
    cx: MatchContext,
    candidates: Seq<CandidateView<&Expr>>,
    n: nat,
    before: Matches,
)
    requires
        n <= candidates.len(),
        matched_first(cx, candidates, n, before) is Ok,
    ensures
        forall|i: int|
            0 <= i <= n ==> #[trigger] matched_first(cx, candidates, i as nat, before) is Ok,
    decreases n,
{
    if n > 0 {
        lemma_all_before_are_ok(cx, candidates, (n - 1) as nat, before);
        assert forall|i: int| 0 <= i <= n implies #[trigger] matched_first(
            cx,
            candidates,
            i as nat,
            before,
        ) is Ok by {
            if i == n {
                assert(i as nat == n);
            }
        }
    }
}

/// The number of candidates that were looked at before one failed.
proof fn lemma_first_error(
    cx: MatchContext,
    candidates: Seq<CandidateView<&Expr>>,
    n: nat,
    before: Matches,
) -> (m: nat)
    requires
        n <= candidates.len(),
        matched_first(cx, candidates, n, before) is Err,
    ensures
        m < n,
        matched_first(cx, candidates, m, before) is Ok,
        matched_first(cx, candidates, (m + 1) as nat, before) == matched_first(
            cx,
            candidates,
            n,
            before,
        ),
    decreases n,
{
    let last = (n - 1) as nat;
    if matched_first(cx, candidates, last, before) is Err {
        lemma_first_error(cx, candidates, last, before)
    } else {
        assert((last + 1) as nat == n);
        last
    }
}

proof fn lemma_resorted_entries(
    cx: MatchContext,
    candidates: Seq<CandidateView<&Expr>>,
    n: nat,
    before: Matches,
)
    requires
        n <= candidates.len(),
    ensures
        resorted_first(cx, candidates, n, before).len() == n,
        forall|i: int|
            0 <= i < n ==> #[trigger] resorted_first(cx, candidates, n, before)[i] == resorted_one(
                cx,
                longest_first(candidates)[i],
                matched_first(cx, candidates, i as nat, before)->Ok_0,
            ),
    decreases n,
{
    if n > 0 {
        let m = (n - 1) as nat;
        lemma_resorted_entries(cx, candidates, m, before);
        assert forall|i: int| 0 <= i < n implies #[trigger] resorted_first(
            cx,
            candidates,
            n,
            before,
        )[i] == resorted_one(
            cx,
            longest_first(candidates)[i],
            matched_first(cx, candidates, i as nat, before)->Ok_0,
        ) by {
            if i < m {
                assert(resorted_first(cx, candidates, n, before)[i] == resorted_first(
                    cx,
                    candidates,
                    m,
                    before,
                )[i]);
            } else {
                assert(i as nat == m);
            }
        }
    }
}

} // verus!
