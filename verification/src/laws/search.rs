use crate::analysis::{
    analysed, located, rule_of_change, AnalysedCrate, ChangedSideView, FindRulesView,
};
use crate::change::change;
use crate::codemap::named_file;
use crate::error::RuleError;
use crate::hir::{Expr, Item, Node};
use crate::laws::change::{
    agree_outside, law_versions_agree_outside_change, law_wider_change_keeps_agreement, takes_in,
};
use crate::laws::reproduction::{can_be_filled, law_rule_reproduces_change, reproduces_change};
use crate::laws::rule::files_stand_apart;
use crate::rule_finder::{found_at, found_in, Candidate};
use crate::session::{next_step, SessionView, Step, Version};
use crate::span::{ChangedSpan, Span};
use crate::token::Lexing;
use vstd::prelude::*;
use vstd::utf8::*;

verus! {

/// Whether a candidate is an expression around `changed` that no macro made, and no such expression
/// is found within it.
pub open spec fn is_innermost<'a>(candidate: Candidate<'a>, changed: Span) -> bool {
    candidate matches Candidate::Expr(expr, body_id, item) && {
        &&& !expr.span.is_expanded()
        &&& expr.span.covers(changed)
        &&& found_in(
            expr.children@,
            changed,
            Some(item),
            Some(body_id),
            Candidate::NotFound,
        ) == Ok::<Candidate<'a>, RuleError>(Candidate::NotFound)
    }
}

proof fn lemma_found_in<'a>(
    nodes: Seq<Node>,
    changed: Span,
    item: Option<&'a Item>,
    body: Option<usize>,
    before: Candidate<'a>,
)
    ensures
        found_in(nodes, changed, item, body, before) matches Ok(candidate) ==> {
            ||| is_innermost(candidate, changed)
            ||| candidate == before && found_in(nodes, changed, item, body, Candidate::NotFound)
                == Ok::<Candidate<'a>, RuleError>(Candidate::NotFound)
        },
    decreases nodes,
{
    if nodes.len() > 0 {
        lemma_found_in(nodes.drop_last(), changed, item, body, before);
        if let Ok(so_far) = found_in(nodes.drop_last(), changed, item, body, before) {
            lemma_found_at(nodes.last(), changed, item, body, so_far);
        }
    }
}

proof fn lemma_found_at<'a>(
    node: Node,
    changed: Span,
    item: Option<&'a Item>,
    body: Option<usize>,
    before: Candidate<'a>,
)
    ensures
        found_at(node, changed, item, body, before) matches Ok(candidate) ==> {
            ||| is_innermost(candidate, changed)
            ||| candidate == before && found_at(node, changed, item, body, Candidate::NotFound)
                == Ok::<Candidate<'a>, RuleError>(Candidate::NotFound)
        },
    decreases node,
{
    match node {
        Node::Item(inner) => {
            lemma_found_in(inner.children@, changed, Some(&inner), body, before);
        },
        Node::Body(inner) => {
            lemma_found_in(inner.children@, changed, item, Some(inner.id), before);
        },
        Node::Path(path) => {
            lemma_found_in(path.children@, changed, item, body, before);
        },
        Node::Expr(expr) => if expr.span.is_expanded() {
            lemma_found_in(expr.children@, changed, item, body, before);
        } else if expr.span.covers(changed) {
            if let (Some(body_id), Some(owner)) = (body, item) {
                lemma_found_in(
                    expr.children@,
                    changed,
                    item,
                    body,
                    Candidate::Expr(&expr, body_id, owner),
                );
            }
        },
    }
}

/// The expression that is found lies around the changed part, no macro made it, and no such
/// expression is found within it.
pub proof fn law_found_expression_is_innermost(nodes: Seq<Node>, changed: Span)
    ensures
        found_in(nodes, changed, None, None, Candidate::NotFound) matches Ok(
            Candidate::Expr(expr, body_id, item),
        ) ==> is_innermost(Candidate::Expr(expr, body_id, item), changed),
{
    lemma_found_in(nodes, changed, None, None, Candidate::NotFound);
}

/// What an analysis finds to have changed takes in what was known to have changed.
pub proof fn law_analysis_only_widens_change(
    state: FindRulesView,
    krate: AnalysedCrate,
    lx: Lexing,
)
    ensures
        analysed(state, krate, lx) matches Ok(next) ==> {
            &&& takes_in(next.changed_span, state.changed_span)
            &&& next.modified_file_name == state.modified_file_name
            &&& next.modified_source == state.modified_source
            &&& state.changed_side is Some ==> next.changed_side == state.changed_side
        },
{
    if let Some(i) = named_file(krate.codemap@, state.modified_file_name) {
        let filemap = krate.codemap@[i];
        law_found_expression_is_innermost(krate.nodes@, state.changed_span.at(filemap));
    }
}

/// Where two versions of the file agree outside what is known to have changed, they still do after
/// an analysis.
pub proof fn law_analysis_keeps_agreement(
    left: Seq<u8>,
    right: Seq<u8>,
    state: FindRulesView,
    krate: AnalysedCrate,
    lx: Lexing,
)
    requires
        agree_outside(left, right, state.changed_span),
    ensures
        analysed(state, krate, lx) matches Ok(next) ==> agree_outside(
            left,
            right,
            next.changed_span,
        ),
{
    if let Ok(next) = analysed(state, krate, lx) {
        law_analysis_only_widens_change(state, krate, lx);
        law_wider_change_keeps_agreement(left, right, state.changed_span, next.changed_span);
    }
}

/// How many command lines a session has not given up.
pub open spec fn command_lines_left(session: SessionView) -> int {
    session.command_count - session.args_index
}

/// How many bytes of the file the changed part leaves out.
pub open spec fn unchanged_bytes(session: SessionView) -> int {
    session.state.changed_span.common_prefix + session.state.changed_span.common_suffix
}

/// How many versions of the code are to be compiled until the session compares what they show.
pub open spec fn versions_left(session: SessionView) -> int {
    match session.version {
        Version::Modified => 2,
        Version::Original(_) => 1,
    }
}

/// Every version that is compiled brings the search nearer to its end: a command line is given up,
/// or else the changed part has become larger, or else the original code is next. None of these can
/// go on for ever.
pub proof fn law_search_comes_to_an_end(
    session: SessionView,
    krate: AnalysedCrate,
    lx: Lexing,
)
    requires
        session.version matches Version::Original(changed_span) ==> changed_span
            == session.state.changed_span,
        session.args_index < session.command_count,
    ensures
        analysed(session.state, krate, lx) matches Ok(state) ==> (next_step(
            (SessionView { state, ..session }),
        ) matches Step::Compile(later) ==> {
            &&& decreases_to!(
                command_lines_left(session),
                unchanged_bytes(session),
                versions_left(session)
                    => command_lines_left(later),
                unchanged_bytes(later),
                versions_left(later))
            &&& later.args_index < later.command_count
            &&& later.version matches Version::Original(changed_span) ==> changed_span
                == later.state.changed_span
        }),
{
    law_analysis_only_widens_change(session.state, krate, lx);
    if let Ok(state) = analysed(session.state, krate, lx) {
        if let Step::Compile(later) = next_step(SessionView { state, ..session }) {
            assert(unchanged_bytes(later) <= unchanged_bytes(session));
        }
    }
}

/// The rule that a search ends with is that of the expression found in the original code. The
/// changed part is just that expression there, and it is what the modified code had shown.
pub proof fn law_search_ends_with_rule_of_change(
    session: SessionView,
    krate: AnalysedCrate,
    lx: Lexing,
    state: FindRulesView,
    changed_side: ChangedSideView,
    expr: &Expr,
    item: &Item,
    found: ChangedSpan,
    rule: Seq<char>,
)
    requires
        session.version == Version::Original(session.state.changed_span),
        session.state.changed_side == Some(changed_side),
        located(session.state, krate) == Ok::<Option<(ChangedSpan, &Expr, &Item)>, RuleError>(
            Some((found, expr, item)),
        ),
        analysed(session.state, krate, lx) == Ok::<FindRulesView, RuleError>(state),
        next_step((SessionView { state, ..session })) == Step::Done(rule),
    ensures
        found == session.state.changed_span,
        rule_of_change(
            krate.codemap@,
            lx,
            changed_side,
            *expr,
            found,
            session.state.modified_source,
            *item,
        ) == Ok::<Seq<char>, RuleError>(rule),
{
}

/// What a search comes to once these crates were compiled, one after the other, for what the
/// session asked for. It stops where it is done or has failed.
pub open spec fn searched(session: SessionView, crates: Seq<AnalysedCrate>, lx: Lexing) -> Result<
    Step,
    RuleError,
>
    decreases crates.len(),
{
    if crates.len() == 0 {
        Ok(Step::Compile(session))
    } else {
        match searched(session, crates.drop_last(), lx) {
            Ok(Step::Compile(before)) => match analysed(before.state, crates.last(), lx) {
                Err(e) => Err(e),
                Ok(state) => Ok(next_step(SessionView { state, ..before })),
            },
            stopped => stopped,
        }
    }
}

/// Whether a session is one that starts the search for what leads from `original_source` to
/// `modified_source`.
pub open spec fn starts_search(
    session: SessionView,
    original_source: Seq<char>,
    modified_source: Seq<char>,
) -> bool {
    &&& change(encode_utf8(original_source), encode_utf8(modified_source)) == Some(
        session.state.changed_span,
    )
    &&& session.state.modified_source == modified_source
    &&& session.state.result == Seq::<char>::empty()
    &&& session.state.changed_side is None
    &&& session.version is Modified
    &&& 0 == session.args_index < session.command_count
}

/// What holds of a session between two compilations: the versions of the file agree outside the
/// part that is known to have changed, and the original code is asked for only after the modified
/// code has shown the changed part.
pub open spec fn is_under_way(
    session: SessionView,
    original_source: Seq<char>,
    modified_source: Seq<char>,
) -> bool {
    &&& agree_outside(
        encode_utf8(original_source),
        encode_utf8(modified_source),
        session.state.changed_span,
    )
    &&& session.state.modified_source == modified_source
    &&& session.version matches Version::Original(changed_span) ==> changed_span
        == session.state.changed_span && session.state.changed_side is Some
    &&& 0 <= session.args_index < session.command_count
}

/// As long as a search goes on, the versions of the file agree outside the part that is known to
/// have changed.
pub proof fn law_search_keeps_agreement(
    session: SessionView,
    crates: Seq<AnalysedCrate>,
    lx: Lexing,
    original_source: Seq<char>,
    modified_source: Seq<char>,
)
    requires
        starts_search(session, original_source, modified_source),
        encode_utf8(original_source).len() <= usize::MAX,
    ensures
        searched(session, crates, lx) matches Ok(Step::Compile(later)) ==> is_under_way(
            later,
            original_source,
            modified_source,
        ),
    decreases crates.len(),
{
    let left = encode_utf8(original_source);
    let right = encode_utf8(modified_source);
    if crates.len() == 0 {
        law_versions_agree_outside_change(left, right);
    } else {
        let earlier = crates.drop_last();
        law_search_keeps_agreement(session, earlier, lx, original_source, modified_source);
        if let Ok(Step::Compile(before)) = searched(session, earlier, lx) {
            law_analysis_keeps_agreement(left, right, before.state, crates.last(), lx);
            law_analysis_only_widens_change(before.state, crates.last(), lx);
        }
    }
}

/// A search, from its start to its end, comes to a rule that reproduces the change. The original
/// code was asked for last, the changed part of the file is just an expression there, and outside
/// that part the versions of the file agree. This is so wherever an expression is found in that
/// code and the placeholders of the rule can be filled in.
pub proof fn law_search_reproduces_change(
    session: SessionView,
    crates: Seq<AnalysedCrate>,
    lx: Lexing,
    original_source: Seq<char>,
    modified_source: Seq<char>,
    rule: Seq<char>,
    before: SessionView,
    found: ChangedSpan,
    expr: &Expr,
    item: &Item,
    k: int,
)
    requires
        starts_search(session, original_source, modified_source),
        encode_utf8(original_source).len() <= usize::MAX,
        crates.len() > 0,
        searched(session, crates.drop_last(), lx) == Ok::<Step, RuleError>(Step::Compile(before)),
        searched(session, crates, lx) == Ok::<Step, RuleError>(Step::Done(rule)),
        located(before.state, crates.last()) == Ok::<
            Option<(ChangedSpan, &Expr, &Item)>,
            RuleError,
        >(Some((found, expr, item))),
        files_stand_apart(crates.last().codemap@),
        0 <= k < crates.last().codemap@.len(),
        can_be_filled(
            crates.last().codemap@,
            k,
            lx,
            before.state.changed_side->0,
            *expr,
            found,
            modified_source,
        ),
    ensures
        before.version == Version::Original(found),
        agree_outside(encode_utf8(original_source), encode_utf8(modified_source), found),
        reproduces_change(
            crates.last().codemap@,
            k,
            lx,
            before.state.changed_side->0,
            *expr,
            found,
            modified_source,
            *item,
            rule,
        ),
{
    let krate = crates.last();
    law_search_keeps_agreement(session, crates.drop_last(), lx, original_source, modified_source);
    let state = analysed(before.state, krate, lx)->Ok_0;
    let changed_side = before.state.changed_side->0;
    law_search_ends_with_rule_of_change(
        before,
        krate,
        lx,
        state,
        changed_side,
        expr,
        item,
        found,
        rule,
    );
    law_rule_reproduces_change(
        krate.codemap@,
        k,
        lx,
        changed_side,
        *expr,
        found,
        modified_source,
        *item,
        rule,
    );
}

} // verus!
