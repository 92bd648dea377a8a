use crate::candidate::{
    candidate_view, candidates_view, lemma_candidates_view, map_view, refs_view, CandidateView,
    PlaceholderCandidate,
};
use crate::codemap::{snippet_in, CodeMap, FileMap, FileView};
use crate::error::RuleError;
use crate::hir::Expr;
use crate::laws::matching::law_no_placeholder_lies_within_another;
use crate::order::{
    arranged, lemma_arranged_items, lemma_order_exists, sort_by_keys, stable_order,
};
use crate::span::{RelativeSpan, Span};
use crate::token::{is_lexer, is_lexing_of, tokenize, Lexing, TokenStream, TokenView};
use std::collections::HashMap;
use vstd::prelude::*;
use vstd::std_specs::hash::*;

verus! {

/// An expression that a rule leaves open, with the places in the changed code where it is used.
pub struct Placeholder<'a> {
    pub expr: &'a Expr,
    pub uses: Vec<Span>,
}

/// What a placeholder is, whatever holds its uses.
pub struct PlaceholderView {
    pub expr: Expr,
    pub uses: Seq<Span>,
}

impl<'a> View for Placeholder<'a> {
    type V = PlaceholderView;

    open spec fn view(&self) -> PlaceholderView {
        PlaceholderView { expr: *self.expr, uses: self.uses@ }
    }
}

pub open spec fn placeholders_view(placeholders: Seq<Placeholder>) -> Seq<PlaceholderView> {
    Seq::new(placeholders.len(), |i: int| placeholders[i]@)
}

/// A number that is the smaller the longer a span is.
pub open spec fn shortness(span: Span) -> u32 {
    if span.lo <= span.hi {
        (u32::MAX - (span.hi - span.lo)) as u32
    } else {
        u32::MAX
    }
}

pub open spec fn shortness_keys<'a>(candidates: Seq<CandidateView<&'a Expr>>) -> Seq<u32> {
    Seq::new(candidates.len(), |i: int| shortness(candidates[i].data.span))
}

/// The candidates with longest first, so that these take precedence.
pub open spec fn longest_first<'a>(candidates: Seq<CandidateView<&'a Expr>>) -> Seq<
    CandidateView<&'a Expr>,
> {
    arranged(candidates, shortness_keys(candidates))
}

/// Whether one of two spans contains the other.
pub open spec fn overlap(a: Span, b: Span) -> bool {
    a.covers(b) || b.covers(a)
}

/// Whether `span` neither contains one of the spans in use nor is contained in one.
pub open spec fn is_free(used: Seq<Span>, span: Span) -> bool {
    forall|i: int|
        0 <= i < used.len() ==> !overlap(#[trigger] used[i], span)
}

/// Whether no two of the spans in use contain one another.
pub open spec fn uses_stand_apart(used: Seq<Span>) -> bool {
    forall|i: int, j: int|
        0 <= i < j < used.len() ==> !overlap(#[trigger] used[i], #[trigger] used[j])
}

/// What placeholders are looked for in.
pub struct MatchContext {
    /// Where the text of the original code is.
    pub codemap: Seq<FileView>,
    /// The changed file.
    pub other_filemap: FileView,
    /// The candidates of the changed code, by hash.
    pub other_candidates: Map<u64, Seq<CandidateView<RelativeSpan>>>,
    pub lex: Lexing,
}

/// The first of the candidates `others` of the changed code that has the tokens `tokens` and that
/// is free.
pub open spec fn first_use(
    cx: MatchContext,
    tokens: Seq<TokenView>,
    others: Seq<CandidateView<RelativeSpan>>,
    used: Seq<Span>,
) -> Result<Option<Span>, RuleError>
    decreases others.len(),
{
    if others.len() == 0 {
        Ok(None)
    } else if !others[0].data.fits(cx.other_filemap) {
        Err(RuleError::SpanOutsideFile)
    } else {
        let span = others[0].data.at(cx.other_filemap);
        match cx.other_filemap.snippet(span.lo as int, span.hi as int) {
            None => Err(RuleError::NoSnippet),
            Some(text) => if tokens == (cx.lex)(text) && is_free(used, span) {
                Ok(Some(span))
            } else {
                first_use(cx, tokens, others.skip(1), used)
            },
        }
    }
}

/// The place in the changed code where a candidate of the original code is used.
pub open spec fn use_of<'a>(
    cx: MatchContext,
    candidate: CandidateView<&'a Expr>,
    used: Seq<Span>,
) -> Result<Option<Span>, RuleError> {
    if cx.other_candidates.contains_key(candidate.hash) {
        match snippet_in(
            cx.codemap,
            candidate.data.span.lo as int,
            candidate.data.span.hi as int,
        ) {
            None => Err(RuleError::NoSnippet),
            Some(text) => first_use(
                cx,
                (cx.lex)(text),
                cx.other_candidates[candidate.hash],
                used,
            ),
        }
    } else {
        Ok(None)
    }
}

/// The placeholders that were found, and the places in the changed code that they use.
#[verifier::ext_equal]
pub struct Matches {
    pub found: Seq<PlaceholderView>,
    pub used: Seq<Span>,
}

/// What was found once a candidate was looked at: the candidate if it is used in the changed
/// code, and else what is found among the candidates within it.
pub open spec fn matched_one<'a>(
    cx: MatchContext,
    candidate: CandidateView<&'a Expr>,
    before: Matches,
) -> Result<Matches, RuleError>
    decreases candidate,
{
    match use_of(cx, candidate, before.used) {
        Err(e) => Err(e),
        Ok(Some(span)) => Ok(
            Matches {
                found: before.found.push(
                    PlaceholderView { expr: *candidate.data, uses: seq![span] },
                ),
                used: before.used.push(span),
            },
        ),
        Ok(None) => matched_first(cx, candidate.children, candidate.children.len(), before),
    }
}

/// What was found once the first `n` of the candidates, the longest first, were looked at.
pub open spec fn matched_first<'a>(
    cx: MatchContext,
    candidates: Seq<CandidateView<&'a Expr>>,
    n: nat,
    before: Matches,
) -> Result<Matches, RuleError>
    decreases candidates, n,
{
    if n == 0 || n > candidates.len() {
        Ok(before)
    } else {
        match matched_first(cx, candidates, (n - 1) as nat, before) {
            Err(e) => Err(e),
            Ok(so_far) => {
                proof {
                    lemma_arranged_items(candidates, shortness_keys(candidates));
                    assert(longest_first(candidates)[n - 1] == candidates[stable_order(
                        shortness_keys(candidates),
                    )[n - 1]]);
                }
                matched_one(cx, longest_first(candidates)[n - 1], so_far)
            },
        }
    }
}

/// What was found once all the candidates were looked at.
pub open spec fn matched<'a>(
    cx: MatchContext,
    candidates: Seq<CandidateView<&'a Expr>>,
    before: Matches,
) -> Result<Matches, RuleError> {
    matched_first(cx, candidates, candidates.len(), before)
}

/// A candidate once it was looked at. If it is used in the changed code then it stays as it is, and
/// else the candidates within it are as looking at them leaves them.
pub open spec fn resorted_one<'a>(
    cx: MatchContext,
    candidate: CandidateView<&'a Expr>,
    before: Matches,
) -> CandidateView<&'a Expr>
    decreases candidate,
{
    match use_of(cx, candidate, before.used) {
        Ok(None) => CandidateView {
            children: resorted_first(cx, candidate.children, candidate.children.len(), before),
            ..candidate
        },
        _ => candidate,
    }
}

/// The first `n` of the candidates, the longest first, once they were looked at.
pub open spec fn resorted_first<'a>(
    cx: MatchContext,
    candidates: Seq<CandidateView<&'a Expr>>,
    n: nat,
    before: Matches,
) -> Seq<CandidateView<&'a Expr>>
    decreases candidates, n,
{
    if n == 0 || n > candidates.len() {
        Seq::empty()
    } else {
        proof {
            lemma_arranged_items(candidates, shortness_keys(candidates));
            assert(longest_first(candidates)[n - 1] == candidates[stable_order(
                shortness_keys(candidates),
            )[n - 1]]);
        }
        resorted_first(cx, candidates, (n - 1) as nat, before).push(
            resorted_one(
                cx,
                longest_first(candidates)[n - 1],
                matched_first(cx, candidates, (n - 1) as nat, before)->Ok_0,
            ),
        )
    }
}

/// The candidates once all of them were looked at: the longest first, and the same within each of
/// those that are not used in the changed code.
pub open spec fn resorted<'a>(
    cx: MatchContext,
    candidates: Seq<CandidateView<&'a Expr>>,
    before: Matches,
) -> Seq<CandidateView<&'a Expr>> {
    resorted_first(cx, candidates, candidates.len(), before)
}

/// What came of looking at a candidate.
pub enum Outcome {
    /// It is used at this place of the changed code.
    Used(Span),
    /// It is not used, and this came of the candidates within it, the longest first.
    Passed(Seq<Outcome>),
}

/// Whether something came of each candidate, the longest first, and so on within those that are not
/// used in the changed code.
pub open spec fn are_outcomes<'a>(
    candidates: Seq<CandidateView<&'a Expr>>,
    outcomes: Seq<Outcome>,
) -> bool
    decreases outcomes,
{
    &&& outcomes.len() == candidates.len()
    &&& forall|i: int|
        0 <= i < outcomes.len() ==> is_outcome(
            longest_first(candidates)[i],
            #[trigger] outcomes[i],
        )
}

pub open spec fn is_outcome<'a>(candidate: CandidateView<&'a Expr>, outcome: Outcome) -> bool
    decreases outcome,
{
    match outcome {
        Outcome::Used(_) => true,
        Outcome::Passed(inner) => are_outcomes(candidate.children, inner),
    }
}

/// The placeholders that come of the first candidates, the longest first.
pub open spec fn found_by<'a>(
    candidates: Seq<CandidateView<&'a Expr>>,
    outcomes: Seq<Outcome>,
) -> Seq<PlaceholderView>
    decreases outcomes,
{
    if outcomes.len() == 0 {
        Seq::empty()
    } else {
        found_by(candidates, outcomes.drop_last()) + found_by_one(
            longest_first(candidates)[outcomes.len() - 1],
            outcomes.last(),
        )
    }
}

pub open spec fn found_by_one<'a>(
    candidate: CandidateView<&'a Expr>,
    outcome: Outcome,
) -> Seq<PlaceholderView>
    decreases outcome,
{
    match outcome {
        Outcome::Used(span) => seq![PlaceholderView { expr: *candidate.data, uses: seq![span] }],
        Outcome::Passed(inner) => found_by(candidate.children, inner),
    }
}

/// The places of the changed code that are used.
pub open spec fn used_by(outcomes: Seq<Outcome>) -> Seq<Span>
    decreases outcomes,
{
    if outcomes.len() == 0 {
        Seq::empty()
    } else {
        used_by(outcomes.drop_last()) + used_by_one(outcomes.last())
    }
}

pub open spec fn used_by_one(outcome: Outcome) -> Seq<Span>
    decreases outcome,
{
    match outcome {
        Outcome::Used(span) => seq![span],
        Outcome::Passed(inner) => used_by(inner),
    }
}

/// The first candidates, the longest first, as looking at them leaves them.
pub open spec fn resorted_by<'a>(
    candidates: Seq<CandidateView<&'a Expr>>,
    outcomes: Seq<Outcome>,
) -> Seq<CandidateView<&'a Expr>>
    decreases outcomes,
{
    if outcomes.len() == 0 {
        Seq::empty()
    } else {
        resorted_by(candidates, outcomes.drop_last()).push(
            resorted_by_one(longest_first(candidates)[outcomes.len() - 1], outcomes.last()),
        )
    }
}

pub open spec fn resorted_by_one<'a>(
    candidate: CandidateView<&'a Expr>,
    outcome: Outcome,
) -> CandidateView<&'a Expr>
    decreases outcome,
{
    match outcome {
        Outcome::Used(_) => candidate,
        Outcome::Passed(inner) => CandidateView {
            children: resorted_by(candidate.children, inner),
            ..candidate
        },
    }
}

/// What is found once these outcomes came of the candidates.
pub open spec fn extended<'a>(
    before: Matches,
    candidates: Seq<CandidateView<&'a Expr>>,
    outcomes: Seq<Outcome>,
) -> Matches {
    Matches {
        found: before.found + found_by(candidates, outcomes),
        used: before.used + used_by(outcomes),
    }
}

/// Whether looking at candidates led from `before` to `after` and left the candidates as `left`.
pub open spec fn came_to<'a>(
    before: Matches,
    candidates: Seq<CandidateView<&'a Expr>>,
    outcomes: Seq<Outcome>,
    after: Matches,
    left: Seq<CandidateView<&'a Expr>>,
) -> bool {
    &&& are_outcomes(candidates, outcomes)
    &&& after == extended(before, candidates, outcomes)
    &&& left == resorted_by(candidates, outcomes)
}

/// The candidate at a path: the first number says which candidate, the next which one within it,
/// and so on.
pub open spec fn at_path<T>(candidates: Seq<CandidateView<T>>, path: Seq<int>) -> Option<
    CandidateView<T>,
>
    decreases path.len(),
{
    if path.len() == 0 || !(0 <= path[0] < candidates.len()) {
        None
    } else if path.len() == 1 {
        Some(candidates[path[0]])
    } else {
        at_path(candidates[path[0]].children, path.skip(1))
    }
}

/// Whether placeholders are the candidates at these paths, and no path leads to a candidate within
/// the one that another leads to.
pub open spec fn are_picked<'a>(
    candidates: Seq<CandidateView<&'a Expr>>,
    paths: Seq<Seq<int>>,
    placeholders: Seq<PlaceholderView>,
) -> bool {
    &&& paths.len() == placeholders.len()
    &&& forall|k: int|
        0 <= k < paths.len() ==> (at_path(candidates, #[trigger] paths[k]) matches Some(candidate)
            && *candidate.data == placeholders[k].expr)
    &&& forall|k: int, l: int|
        0 <= k < paths.len() && 0 <= l < paths.len() && k != l ==> !(
        #[trigger] paths[k]).is_prefix_of(#[trigger] paths[l])
}

/// Whether placeholders are candidates of which none is another or lies within another.
pub open spec fn none_lies_within_another<'a>(
    candidates: Seq<CandidateView<&'a Expr>>,
    placeholders: Seq<PlaceholderView>,
) -> bool {
    exists|paths: Seq<Seq<int>>| are_picked(candidates, paths, placeholders)
}

proof fn lemma_matched_error<'a>(
    cx: MatchContext,
    candidates: Seq<CandidateView<&'a Expr>>,
    m: nat,
    n: nat,
    before: Matches,
)
    requires
        m <= n <= candidates.len(),
        matched_first(cx, candidates, m, before) is Err,
    ensures
        matched_first(cx, candidates, n, before) == matched_first(cx, candidates, m, before),
    decreases n,
{
    if m < n {
        lemma_matched_error(cx, candidates, m, (n - 1) as nat, before);
    }
}

proof fn lemma_matched_step<'a>(
    cx: MatchContext,
    candidates: Seq<CandidateView<&'a Expr>>,
    n: int,
    before: Matches,
    so_far: Matches,
)
    requires
        0 <= n < candidates.len(),
        matched_first(cx, candidates, n as nat, before) == Ok::<Matches, RuleError>(so_far),
    ensures
        matched_first(cx, candidates, (n + 1) as nat, before) == matched_one(
            cx,
            candidates[stable_order(shortness_keys(candidates))[n]],
            so_far,
        ),
{
    assert((n + 1) as nat - 1 == n as nat);
}

/// Finds which candidates of the original code are used in the changed code.
pub struct PlaceholderMatcher<'a, 'm, 'p, L> {
    pub codemap: &'m CodeMap,
    pub lex: &'m L,
    pub other_filemap: &'m FileMap,
    pub other_candidates: HashMap<u64, Vec<&'p PlaceholderCandidate<RelativeSpan>>>,
    pub placeholders_found: Vec<Placeholder<'a>>,
    pub used_placeholder_spans: Vec<Span>,
}

impl<'a, 'm, 'p, L: Fn(&str) -> TokenStream> PlaceholderMatcher<'a, 'm, 'p, L> {
    /// What the matcher looks in. `lx` gives the tokens of a text.
    pub open spec fn context(self, lx: Lexing) -> MatchContext {
        MatchContext {
            codemap: self.codemap@,
            other_filemap: self.other_filemap@,
            other_candidates: map_view(self.other_candidates@),
            lex: lx,
        }
    }

    pub open spec fn matches(self) -> Matches {
        Matches {
            found: placeholders_view(self.placeholders_found@),
            used: self.used_placeholder_spans@,
        }
    }

    pub open spec fn wf(self) -> bool {
        is_lexer(*self.lex) && self.other_filemap@.wf()
    }

    /// Whether the matcher looks in the same code as another one.
    pub open spec fn looks_in_same(self, other: Self) -> bool {
        &&& self.codemap == other.codemap
        &&& self.lex == other.lex
        &&& self.other_filemap == other.other_filemap
        &&& self.other_candidates == other.other_candidates
    }

    fn is_unused(&self, span: &Span) -> (r: bool)
        ensures
            r == is_free(self.used_placeholder_spans@, *span),
    {
        let mut i: usize = 0;
        while i < self.used_placeholder_spans.len()
            invariant
                i <= self.used_placeholder_spans.len(),
                forall|j: int|
                    0 <= j < i ==> !overlap(#[trigger] self.used_placeholder_spans@[j], *span),
            decreases self.used_placeholder_spans.len() - i,
        {
            let used = &self.used_placeholder_spans[i];
            if used.contains(span) || span.contains(used) {
                return false;
            }
            i = i + 1;
        }
        true
    }

    /// The place in the changed code where a candidate of the original code is used.
    fn find_use(&self, candidate: &PlaceholderCandidate<&'a Expr>) -> (r: Result<
        Option<Span>,
        RuleError,
    >)
        requires
            self.wf(),
        ensures
            forall|lx: Lexing| #[trigger]
                is_lexing_of(lx, *self.lex) ==> r == use_of(
                    self.context(lx),
                    candidate_view(*candidate),
                    self.used_placeholder_spans@,
                ),
            r matches Ok(Some(span)) ==> is_free(self.used_placeholder_spans@, span),
    {
        broadcast use group_hash_axioms;

        let others = match self.other_candidates.get(&candidate.hash) {
            None => {
                return Ok(None);
            },
            Some(others) => others,
        };
        let source = match self.codemap.span_to_snippet(&candidate.data.span) {
            None => {
                return Err(RuleError::NoSnippet);
            },
            Some(source) => source,
        };
        let stream = tokenize(self.lex, source.as_str());
        let ghost views = refs_view(others@);
        let ghost used = self.used_placeholder_spans@;
        assert(map_view(self.other_candidates@)[candidate.hash] == views);
        assert(views.skip(0) =~= views);
        let mut i: usize = 0;
        while i < others.len()
            invariant
                i <= others.len(),
                self.wf(),
                views == refs_view(others@),
                used == self.used_placeholder_spans@,
                forall|lx: Lexing| #[trigger]
                    is_lexing_of(lx, *self.lex) ==> use_of(
                        self.context(lx),
                        candidate_view(*candidate),
                        used,
                    ) == first_use(self.context(lx), stream@, views.skip(i as int), used),
            decreases others.len() - i,
        {
            let other: &PlaceholderCandidate<RelativeSpan> = others[i];
            proof {
                assert(views.skip(i as int)[0] == candidate_view(*other));
                assert(views.skip(i as int).skip(1) =~= views.skip(i + 1));
            }
            let end = self.other_filemap.end_pos();
            let room: u32 = end - self.other_filemap.start_pos;
            if other.data.start > room || other.data.end > room {
                return Err(RuleError::SpanOutsideFile);
            }
            let other_span = other.data.absolute(self.other_filemap);
            let other_source = match self.other_filemap.span_to_snippet(&other_span) {
                None => {
                    return Err(RuleError::NoSnippet);
                },
                Some(other_source) => other_source,
            };
            let other_stream = tokenize(self.lex, other_source.as_str());
            if stream.eq_unspanned(&other_stream) && self.is_unused(&other_span) {
                return Ok(Some(other_span));
            }
            i = i + 1;
        }
        Ok(None)
    }

    /// Looks for the candidates, the longest first, in the changed code, and for those within a
    /// candidate where it is not used in the changed code: placeholders do not overlap. The
    /// candidates that are looked for are left in the order in which they were looked for.
    pub fn find_placeholders(&mut self, candidates: &mut Vec<PlaceholderCandidate<&'a Expr>>) -> (r:
        Result<(), RuleError>)
        requires
            old(self).wf(),
        ensures
            final(self).wf(),
            final(self).looks_in_same(*old(self)),
            forall|lx: Lexing| #[trigger]
                is_lexing_of(lx, *old(self).lex) ==> match matched(
                    old(self).context(lx),
                    candidates_view(old(candidates)@),
                    old(self).matches(),
                ) {
                    Ok(matches) => r is Ok && final(self).matches() == matches && candidates_view(
                        final(candidates)@,
                    ) == resorted(
                        old(self).context(lx),
                        candidates_view(old(candidates)@),
                        old(self).matches(),
                    ),
                    Err(e) => r is Err && r->Err_0 == e,
                },
            r is Ok ==> exists|outcomes: Seq<Outcome>| #[trigger]
                came_to(
                    old(self).matches(),
                    candidates_view(old(candidates)@),
                    outcomes,
                    final(self).matches(),
                    candidates_view(final(candidates)@),
                ),
            r is Ok ==> none_lies_within_another(
                candidates_view(final(candidates)@),
                final(self).matches().found.skip(old(self).matches().found.len() as int),
            ),
            uses_stand_apart(old(self).used_placeholder_spans@) ==> uses_stand_apart(
                final(self).used_placeholder_spans@,
            ),
            final(candidates)@.len() == old(candidates)@.len(),
            forall|i: int|
                0 <= i < old(candidates)@.len() ==> {
                    let was = old(candidates)@[stable_order(
                        shortness_keys(candidates_view(old(candidates)@)),
                    )[i]];
                    &&& (#[trigger] final(candidates)@[i]).hash == was.hash
                    &&& final(candidates)@[i].data == was.data
                },
        decreases *old(candidates),
    {
        let ghost before = *self;
        let ghost all = candidates@;
        let ghost views = candidates_view(candidates@);
        let ghost order = stable_order(shortness_keys(views));
        proof {
            lemma_candidates_view(candidates@);
            lemma_order_exists(shortness_keys(views));
        }
        let mut keys: Vec<u32> = Vec::new();
        let mut k: usize = 0;
        while k < candidates.len()
            invariant
                k <= candidates.len(),
                *candidates == *old(candidates),
                keys.len() == k,
                views.len() == candidates.len(),
                forall|j: int|
                    0 <= j < candidates.len() ==> #[trigger] views[j] == candidate_view(
                        candidates@[j],
                    ),
                forall|j: int|
                    0 <= j < k ==> #[trigger] keys@[j] == shortness_keys(views)[j],
            decreases candidates.len() - k,
        {
            let span = &candidates[k].data.span;
            assert(views[k as int] == candidate_view(candidates@[k as int]));
            let key: u32 = if span.lo <= span.hi {
                u32::MAX - (span.hi - span.lo)
            } else {
                u32::MAX
            };
            keys.push(key);
            k = k + 1;
        }
        assert(keys@ =~= shortness_keys(views));
        sort_by_keys(candidates, &keys);
        let ghost sorted = candidates@;
        let ghost mut outcomes: Seq<Outcome> = Seq::empty();
        proof {
            assert forall|i: int| 0 <= i < sorted.len() implies {
                &&& #[trigger] sorted[i] == all[order[i]]
                &&& candidate_view(sorted[i]) == longest_first(views)[i]
            } by {
                assert(views[order[i]] == candidate_view(all[order[i]]));
            }
            assert(self.matches() =~= extended(before.matches(), views, outcomes));
        }
        let mut n: usize = 0;
        while n < candidates.len()
            invariant
                n <= candidates.len(),
                candidates@.len() == sorted.len(),
                sorted.len() == views.len(),
                all == old(candidates)@,
                all.len() == views.len(),
                views == candidates_view(all),
                self.wf(),
                before == *old(self),
                self.looks_in_same(before),
                order == stable_order(shortness_keys(views)),
                forall|i: int|
                    0 <= i < sorted.len() ==> 0 <= #[trigger] order[i] < all.len(),
                forall|i: int|
                    0 <= i < sorted.len() ==> {
                        &&& #[trigger] sorted[i] == all[order[i]]
                        &&& candidate_view(sorted[i]) == longest_first(views)[i]
                    },
                forall|i: int| n <= i < sorted.len() ==> #[trigger] candidates@[i] == sorted[i],
                forall|i: int|
                    0 <= i < n ==> (#[trigger] candidates@[i]).hash == sorted[i].hash
                        && candidates@[i].data == sorted[i].data,
                outcomes.len() == n,
                forall|i: int|
                    0 <= i < n ==> is_outcome(longest_first(views)[i], #[trigger] outcomes[i]),
                resorted_by(views, outcomes).len() == n,
                forall|i: int|
                    0 <= i < n ==> candidate_view(#[trigger] candidates@[i]) == resorted_by(
                        views,
                        outcomes,
                    )[i],
                self.matches() == extended(before.matches(), views, outcomes),
                uses_stand_apart(before.used_placeholder_spans@) ==> uses_stand_apart(
                    self.used_placeholder_spans@,
                ),
                forall|lx: Lexing| #[trigger]
                    is_lexing_of(lx, *before.lex) ==> {
                        &&& matched_first(before.context(lx), views, n as nat, before.matches())
                            == Ok::<Matches, RuleError>(self.matches())
                        &&& resorted_first(before.context(lx), views, n as nat, before.matches())
                            == resorted_by(views, outcomes)
                    },
            decreases candidates.len() - n,
        {
            let ghost view = candidate_view(candidates@[n as int]);
            let ghost prev = *self;
            let ghost so_far = self.matches();
            let ghost prev_candidates = candidates@;
            let ghost mut outcome = Outcome::Used(Span::between(0, 0));
            proof {
                assert(candidates@[n as int] == sorted[n as int]);
                assert(sorted[n as int] == all[order[n as int]]);
                assert(view == longest_first(views)[n as int]);
                assert forall|lx: Lexing| #[trigger]
                    is_lexing_of(lx, *before.lex) implies prev.context(lx) == before.context(lx)
                    && matched_first(before.context(lx), views, (n + 1) as nat, before.matches())
                    == matched_one(before.context(lx), view, so_far) && (matched_one(
                    before.context(lx),
                    view,
                    so_far,
                ) is Err ==> matched(before.context(lx), views, before.matches()) == matched_one(
                    before.context(lx),
                    view,
                    so_far,
                )) by {
                    let cx = before.context(lx);
                    lemma_matched_step(cx, views, n as int, before.matches(), so_far);
                    if matched_one(cx, view, so_far) is Err {
                        lemma_matched_error(
                            cx,
                            views,
                            (n + 1) as nat,
                            views.len(),
                            before.matches(),
                        );
                    }
                }
            }
            match self.find_use(&candidates[n]) {
                Err(e) => {
                    return Err(e);
                },
                Ok(Some(other_span)) => {
                    let ghost span = other_span;
                    proof {
                        outcome = Outcome::Used(span);
                        assert(is_free(so_far.used, span));
                    }
                    self.used_placeholder_spans.push(other_span.clone());
                    let expr: &'a Expr = candidates[n].data;
                    let placeholder = Placeholder { expr, uses: vec![other_span] };
                    assert(placeholder@.uses =~= seq![span]);
                    self.placeholders_found.push(placeholder);
                    assert(self.matches() =~= (Matches {
                        found: so_far.found.push(
                            PlaceholderView { expr: *view.data, uses: seq![span] },
                        ),
                        used: so_far.used.push(span),
                    }));
                },
                Ok(None) => {
                    let inner_result = self.find_placeholders(&mut candidates[n].children);
                    match inner_result {
                        Err(e) => {
                            return Err(e);
                        },
                        Ok(_) => {},
                    }
                    proof {
                        let inner = choose|inner: Seq<Outcome>| #[trigger]
                            came_to(
                                so_far,
                                view.children,
                                inner,
                                self.matches(),
                                candidates_view(candidates@[n as int].children@),
                            );
                        outcome = Outcome::Passed(inner);
                    }
                },
            }
            proof {
                let longer = outcomes.push(outcome);
                assert(longer.drop_last() =~= outcomes);
                assert(is_outcome(view, outcome));
                assert(resorted_by(views, longer) == resorted_by(views, outcomes).push(
                    resorted_by_one(view, outcome),
                ));
                assert(candidate_view(candidates@[n as int]) == resorted_by_one(view, outcome));
                assert(found_by(views, longer) == found_by(views, outcomes) + found_by_one(
                    view,
                    outcome,
                ));
                assert(so_far.found + found_by_one(view, outcome) =~= before.matches().found
                    + found_by(views, longer));
                assert(so_far.used + used_by_one(outcome) =~= before.matches().used + used_by(
                    longer,
                ));
                assert(self.matches() =~= extended(before.matches(), views, longer));
                assert forall|i: int| 0 <= i < n + 1 implies is_outcome(
                    longest_first(views)[i],
                    #[trigger] longer[i],
                ) by {
                    if i < n {
                        assert(longer[i] == outcomes[i]);
                    }
                }
                assert forall|i: int| 0 <= i < n + 1 implies candidate_view(
                    #[trigger] candidates@[i],
                ) == resorted_by(views, longer)[i] by {
                    if i < n {
                        assert(candidates@[i] == prev_candidates[i]);
                    }
                }
                assert forall|lx: Lexing| #[trigger] is_lexing_of(lx, *before.lex) implies {
                    &&& matched_first(before.context(lx), views, (n + 1) as nat, before.matches())
                        == Ok::<Matches, RuleError>(self.matches())
                    &&& resorted_first(before.context(lx), views, (n + 1) as nat, before.matches())
                        == resorted_by(views, longer)
                } by {
                    assert((n + 1) as nat - 1 == n as nat);
                    assert(resorted_one(before.context(lx), view, so_far) == resorted_by_one(
                        view,
                        outcome,
                    ));
                }
                outcomes = longer;
            }
            n = n + 1;
        }
        proof {
            lemma_candidates_view(candidates@);
            assert(candidates_view(candidates@) =~= resorted_by(views, outcomes));
            assert(came_to(
                before.matches(),
                views,
                outcomes,
                self.matches(),
                candidates_view(candidates@),
            ));
            law_no_placeholder_lies_within_another(views, outcomes);
            assert(self.matches().found.skip(before.matches().found.len() as int) =~= found_by(
                views,
                outcomes,
            ));
        }
        Ok(())
    }
}

} // verus!
