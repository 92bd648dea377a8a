use crate::analysis::{analysed, located, AnalysedCrate};
use crate::error::{RuleError, SearchError};
use crate::hir::{Expr, Item};
use crate::laws::search::{searched, starts_search};
use crate::session::{next_step, SessionView, Step, Version};
use crate::span::ChangedSpan;
use crate::token::Lexing;
use vstd::prelude::*;

verus! {

/// Whether a crate shows no expression around what a session knows to have changed.
pub open spec fn shows_nothing(session: SessionView, krate: AnalysedCrate) -> bool {
    located(session.state, krate) == Ok::<Option<(ChangedSpan, &Expr, &Item)>, RuleError>(None)
}

/// Whether two sessions know the same and have the same command lines.
pub open spec fn know_the_same(a: SessionView, b: SessionView) -> bool {
    a.state == b.state && a.command_count == b.command_count
}

/// The number of the command line with which the next version is to be compiled. It goes up by one
/// where the modified code was compiled and nothing was found in it, as long as there is a next
/// command line, and it stays as it is in every other case. The modified code is followed by the
/// original code once something was found, and the original code by the modified code. The search
/// fails only where there is no next command line, and only after the modified code.
pub proof fn law_command_lines_are_taken_in_turn(session: SessionView)
    ensures
        session.version is Modified && session.state.changed_side is None && session.args_index + 1
            < session.command_count ==> {
            &&& next_step(session) matches Step::Compile(later)
            &&& later.version is Modified
            &&& later.args_index == session.args_index + 1
            &&& know_the_same(later, session)
        },
        session.version is Modified && session.state.changed_side is None && session.args_index + 1
            >= session.command_count ==> (next_step(session) matches Step::Failed(e) && e
            is NoModifiedExpression),
        session.version is Modified && session.state.changed_side is Some ==> {
            &&& next_step(session) matches Step::Compile(later)
            &&& later.version matches Version::Original(changed_span)
            &&& changed_span.common_prefix == session.state.changed_span.common_prefix
            &&& changed_span.common_suffix == session.state.changed_span.common_suffix
            &&& later.args_index == session.args_index
            &&& know_the_same(later, session)
        },
        session.version matches Version::Original(changed_span) ==> if changed_span.common_prefix
            == session.state.changed_span.common_prefix && changed_span.common_suffix
            == session.state.changed_span.common_suffix {
            next_step(session) matches Step::Done(rule) && rule == session.state.result
        } else {
            &&& next_step(session) matches Step::Compile(later)
            &&& later.version is Modified
            &&& later.args_index == session.args_index
            &&& know_the_same(later, session)
        },
{
}

/// Whether crate number `i` is what a search asked for as the modified code, compiled with command
/// line number `i`, and nothing was found in it.
#[verifier::opaque]
pub open spec fn is_tried_in_vain(
    session: SessionView,
    crates: Seq<AnalysedCrate>,
    lx: Lexing,
    i: int,
) -> bool {
    &&& shows_nothing(session, crates[i])
    &&& searched(session, crates.take(i), lx) matches Ok(Step::Compile(asked)) && asked.version
        is Modified && asked.args_index == i && know_the_same(asked, session)
}

/// Whether a search has found nothing yet: it is at the command line whose number is that of the
/// crates that were compiled, and the ones before were tried in vain.
pub open spec fn has_found_nothing(
    session: SessionView,
    crates: Seq<AnalysedCrate>,
    lx: Lexing,
    later: SessionView,
) -> bool {
    &&& later.version is Modified
    &&& later.args_index == crates.len()
    &&& know_the_same(later, session)
    &&& forall|i: int|
        0 <= i < crates.len() ==> #[trigger] is_tried_in_vain(session, crates, lx, i)
}

proof fn lemma_nothing_found_yet(
    session: SessionView,
    crates: Seq<AnalysedCrate>,
    lx: Lexing,
    original_source: Seq<char>,
    modified_source: Seq<char>,
)
    requires
        starts_search(session, original_source, modified_source),
    ensures
        searched(session, crates, lx) matches Ok(Step::Compile(later)) ==> (
        later.state.changed_side is None ==> has_found_nothing(session, crates, lx, later)),
        searched(session, crates, lx) matches Ok(Step::Compile(later)) ==> (later.version
            is Original ==> later.state.changed_side is Some),
    decreases crates.len(),
{
    if crates.len() > 0 {
        let earlier = crates.drop_last();
        lemma_nothing_found_yet(session, earlier, lx, original_source, modified_source);
        if let Ok(Step::Compile(before)) = searched(session, earlier, lx) {
            if let Ok(state) = analysed(before.state, crates.last(), lx) {
                if let Step::Compile(later) = next_step(SessionView { state, ..before }) {
                    if later.state.changed_side is None {
                        lemma_tried_one_more(session, crates, lx, before);
                    }
                }
            }
        }
    }
}

proof fn lemma_tried_one_more(
    session: SessionView,
    crates: Seq<AnalysedCrate>,
    lx: Lexing,
    before: SessionView,
)
    requires
        crates.len() > 0,
        searched(session, crates.drop_last(), lx) == Ok::<Step, RuleError>(Step::Compile(before)),
        has_found_nothing(session, crates.drop_last(), lx, before),
        shows_nothing(session, crates.last()),
    ensures
        forall|i: int|
            0 <= i < crates.len() ==> #[trigger] is_tried_in_vain(session, crates, lx, i),
{
    assert forall|i: int| 0 <= i < crates.len() implies #[trigger] is_tried_in_vain(
        session,
        crates,
        lx,
        i,
    ) by {
        lemma_tried_at(session, crates, lx, before, i);
    }
}

proof fn lemma_tried_at(
    session: SessionView,
    crates: Seq<AnalysedCrate>,
    lx: Lexing,
    before: SessionView,
    i: int,
)
    requires
        0 <= i < crates.len(),
        searched(session, crates.drop_last(), lx) == Ok::<Step, RuleError>(Step::Compile(before)),
        has_found_nothing(session, crates.drop_last(), lx, before),
        shows_nothing(session, crates.last()),
    ensures
        is_tried_in_vain(session, crates, lx, i),
{
    reveal(is_tried_in_vain);
    let earlier = crates.drop_last();
    if i < earlier.len() {
        assert(is_tried_in_vain(session, earlier, lx, i));
        assert(crates.take(i) =~= earlier.take(i));
    } else {
        assert(crates.take(i) =~= earlier);
    }
}

/// A search fails only with the error that the modified code has no expression around the change,
/// and only after the modified code was compiled with every command line, from the first to the
/// last and once with each, and nothing was found in any of what came of it.
pub proof fn law_search_fails_after_all_command_lines(
    session: SessionView,
    crates: Seq<AnalysedCrate>,
    lx: Lexing,
    original_source: Seq<char>,
    modified_source: Seq<char>,
    before: SessionView,
    error: SearchError,
)
    requires
        starts_search(session, original_source, modified_source),
        crates.len() > 0,
        searched(session, crates.drop_last(), lx) == Ok::<Step, RuleError>(Step::Compile(before)),
        searched(session, crates, lx) == Ok::<Step, RuleError>(Step::Failed(error)),
    ensures
        error is NoModifiedExpression,
        crates.len() == session.command_count,
        forall|i: int|
            0 <= i < session.command_count ==> #[trigger] is_tried_in_vain(
                session,
                crates,
                lx,
                i,
            ),
{
    let earlier = crates.drop_last();
    lemma_nothing_found_yet(session, earlier, lx, original_source, modified_source);
    lemma_search_stays_in_range(session, earlier, lx, original_source, modified_source);
    lemma_tried_one_more(session, crates, lx, before);
}

proof fn lemma_search_stays_in_range(
    session: SessionView,
    crates: Seq<AnalysedCrate>,
    lx: Lexing,
    original_source: Seq<char>,
    modified_source: Seq<char>,
)
    requires
        starts_search(session, original_source, modified_source),
    ensures
        searched(session, crates, lx) matches Ok(Step::Compile(later)) ==> 0 <= later.args_index
            < later.command_count,
    decreases crates.len(),
{
    if crates.len() > 0 {
        lemma_search_stays_in_range(
            session,
            crates.drop_last(),
            lx,
            original_source,
            modified_source,
        );
    }
}

/// Where nothing is found with any of the first command lines, the search asks for the modified
/// code with the next one, and it fails if there is no next one.
pub proof fn law_search_tries_next_command_line(
    session: SessionView,
    crates: Seq<AnalysedCrate>,
    lx: Lexing,
    original_source: Seq<char>,
    modified_source: Seq<char>,
)
    requires
        starts_search(session, original_source, modified_source),
        crates.len() <= session.command_count,
        forall|i: int| 0 <= i < crates.len() ==> shows_nothing(session, #[trigger] crates[i]),
    ensures
        crates.len() < session.command_count ==> {
            &&& searched(session, crates, lx) matches Ok(Step::Compile(later))
            &&& later.version is Modified
            &&& later.args_index == crates.len()
            &&& know_the_same(later, session)
        },
        crates.len() == session.command_count ==> (searched(session, crates, lx) matches Ok(
            Step::Failed(error),
        ) && error is NoModifiedExpression),
    decreases crates.len(),
{
    if crates.len() > 0 {
        let earlier = crates.drop_last();
        assert forall|i: int| 0 <= i < earlier.len() implies shows_nothing(
            session,
            #[trigger] earlier[i],
        ) by {
            assert(earlier[i] == crates[i]);
        }
        assert(shows_nothing(session, crates[crates.len() - 1]));
        law_search_tries_next_command_line(session, earlier, lx, original_source, modified_source);
    }
}

} // verus!
