use crate::analysis::{ChangedSideState, FindRulesState};
use crate::candidate::{
    candidate_view, candidates_view, lemma_candidates_view, map_view, writes_of_all, Hashable,
    PlaceholderCandidate,
};
use crate::change::{differ_first_at, first_difference};
use crate::codemap::{CodeMap, FileName};
use crate::error::{RuleError, SearchError};
use crate::matcher::{placeholders_view, Placeholder, PlaceholderMatcher};
use crate::rule::substitutions_view;
use crate::session::Session;
use crate::span::Span;
use crate::text::texts;
use crate::token::{lemma_trees_view, tree_view, Lexing, TokenStream, TokenTree, TokenView};
use vstd::bytes::*;
use vstd::prelude::*;

verus! {

/// Each error tells the user what is wrong in words of its own.
pub proof fn law_each_error_has_its_words(rule: RuleError, search: SearchError)
    ensures
        rule is OutsideBody ==> rule.text()
            == "Changing expressions outside of bodies isn't supported"@,
        rule is NoSpanInTarget ==> rule.text() == "We never found a span within the target span"@,
        rule is NoSnippet ==> rule.text() == "The source of a span is not available"@,
        rule is SpanOutsideFile ==> rule.text() == "A span reaches out of its file"@,
        rule is NoGenerics ==> rule.text()
            == "Item has no generics, but type appears to have type parameters"@,
        search is NothingChanged ==> search.text() == "Nothing appears to have changed"@,
        search is NoModifiedExpression ==> search.text() == "Failed to find a modified expression"@,
{
}

/// What stands for a token is its text, and for a group its delimiter and what stands for each tree
/// between. So two streams are the same just where they have as many trees, and trees at the same
/// place are the same.
pub proof fn law_tokens_keep_text_and_delimiters(a: TokenStream, b: TokenStream)
    ensures
        a@.len() == a.trees@.len(),
        forall|i: int|
            0 <= i < a.trees@.len() ==> match #[trigger] a.trees@[i] {
                TokenTree::Token(text) => a@[i] == TokenView::Token(text@),
                TokenTree::Delimited(delimiter, inner) => a@[i] == TokenView::Delimited(
                    delimiter,
                    inner@,
                ),
            },
        a@ == b@ <==> a.trees@.len() == b.trees@.len() && forall|i: int|
            0 <= i < a.trees@.len() ==> tree_view(#[trigger] a.trees@[i]) == tree_view(b.trees@[i]),
{
    lemma_trees_view(a.trees@);
    lemma_trees_view(b.trees@);
    assert forall|i: int| 0 <= i < a.trees@.len() implies match #[trigger] a.trees@[i] {
        TokenTree::Token(text) => a@[i] == TokenView::Token(text@),
        TokenTree::Delimited(delimiter, inner) => a@[i] == TokenView::Delimited(delimiter, inner@),
    } by {
        assert(a@[i] == tree_view(a.trees@[i]));
    }
    if a@ == b@ {
        assert forall|i: int| 0 <= i < a.trees@.len() implies tree_view(#[trigger] a.trees@[i])
            == tree_view(b.trees@[i]) by {
            assert(a@[i] == tree_view(a.trees@[i]));
            assert(b@[i] == tree_view(b.trees@[i]));
        }
    }
    if a.trees@.len() == b.trees@.len() && forall|i: int|
        0 <= i < a.trees@.len() ==> tree_view(#[trigger] a.trees@[i]) == tree_view(b.trees@[i]) {
        assert forall|i: int| 0 <= i < a@.len() implies a@[i] == b@[i] by {
            assert(a@[i] == tree_view(a.trees@[i]));
            assert(b@[i] == tree_view(b.trees@[i]));
        }
        assert(a@ =~= b@);
    }
}

/// What stands for a candidate has its hash, what it keeps, and what stands for each candidate
/// within it.
pub proof fn law_candidate_keeps_its_parts<T>(candidate: PlaceholderCandidate<T>)
    ensures
        candidate_view(candidate).hash == candidate.hash,
        candidate_view(candidate).data == candidate.data,
        candidate_view(candidate).children.len() == candidate.children@.len(),
        forall|i: int|
            0 <= i < candidate.children@.len() ==> #[trigger] candidate_view(candidate).children[i]
                == candidate_view(candidate.children@[i]),
        candidate_view(candidate).children == candidates_view(candidate.children@),
{
    lemma_candidates_view(candidate.children@);
}

/// What stands for filed candidates has an entry for the same hashes, and under each of them what
/// stands for every candidate there.
pub proof fn law_filed_candidates_keep_their_places<T>(
    map: Map<u64, Vec<&PlaceholderCandidate<T>>>,
    hash: u64,
)
    ensures
        map_view(map).contains_key(hash) <==> map.contains_key(hash),
        map.contains_key(hash) ==> {
            &&& map_view(map)[hash].len() == map[hash]@.len()
            &&& forall|i: int|
                0 <= i < map[hash]@.len() ==> #[trigger] map_view(map)[hash][i] == candidate_view(
                    *map[hash]@[i],
                )
        },
{
}

/// What stands for substitutions has the place and the text of each.
pub proof fn law_substitutions_keep_place_and_text(substitutions: Seq<(Span, String)>)
    ensures
        substitutions_view(substitutions).len() == substitutions.len(),
        forall|i: int|
            0 <= i < substitutions.len() ==> (#[trigger] substitutions_view(substitutions)[i]).0
                == substitutions[i].0 && substitutions_view(substitutions)[i].1
                == substitutions[i].1@,
{
}

/// A matcher looks in its code map, its changed file and its candidates, and goes on from what it
/// has found.
pub proof fn law_matcher_looks_in_its_parts<'a, 'm, 'p, L: Fn(&str) -> TokenStream>(
    matcher: PlaceholderMatcher<'a, 'm, 'p, L>,
    lx: Lexing,
)
    ensures
        matcher.context(lx).codemap == matcher.codemap@,
        matcher.context(lx).other_filemap == matcher.other_filemap@,
        matcher.context(lx).other_candidates == map_view(matcher.other_candidates@),
        matcher.context(lx).lex == lx,
        matcher.matches().found == placeholders_view(matcher.placeholders_found@),
        matcher.matches().used == matcher.used_placeholder_spans@,
{
}

/// What stands for a code map has every file, with its place, its text and its path if it is one on
/// disk.
pub proof fn law_code_map_keeps_files(codemap: CodeMap)
    ensures
        codemap@.len() == codemap.files@.len(),
        forall|i: int|
            0 <= i < codemap.files@.len() ==> {
                &&& (#[trigger] codemap@[i]).start_pos == codemap.files@[i].start_pos
                &&& codemap@[i].src == codemap.files@[i].src@
                &&& codemap@[i].name == match codemap.files@[i].name {
                    FileName::Real(path) => Some(path@),
                    FileName::Other => None,
                }
            },
{
}

/// What stands for placeholders has the expression of each and all its uses.
pub proof fn law_placeholders_keep_uses(placeholders: Seq<Placeholder>)
    ensures
        placeholders_view(placeholders).len() == placeholders.len(),
        forall|i: int|
            0 <= i < placeholders.len() ==> (#[trigger] placeholders_view(placeholders)[i]).expr
                == *placeholders[i].expr && placeholders_view(placeholders)[i].uses
                == placeholders[i].uses@,
{
}

/// What stands for a search has all that is known, what is to be compiled next, and with which of
/// how many command lines.
pub proof fn law_session_keeps_its_parts(session: Session, side: ChangedSideState)
    ensures
        session@.version == session.version,
        session@.args_index == session.args_index,
        session@.command_count == session.command_count,
        session@.state == session.state@,
        keeps_state(session.state),
        session.state.changed_side_state == Some(side) ==> session@.state.changed_side == Some(
            side@,
        ),
        session.state.changed_side_state is None ==> session@.state.changed_side is None,
        side@.candidate_placeholders == candidates_view(side.candidate_placeholders@),
        forall|text: Seq<char>| #[trigger]
            side@.required_paths.contains(text) <==> exists|i: int|
                0 <= i < side.required_paths@.len() && (#[trigger] side.required_paths@[i])@
                    == text,
{
    assert forall|text: Seq<char>| #[trigger]
        side@.required_paths.contains(text) <==> exists|i: int|
            0 <= i < side.required_paths@.len() && (#[trigger] side.required_paths@[i])@
                == text by {
        let list = texts(side.required_paths@);
        if side@.required_paths.contains(text) {
            let i = choose|i: int| 0 <= i < list.len() && list[i] == text;
            assert(side.required_paths@[i]@ == text);
        }
        if exists|i: int|
            0 <= i < side.required_paths@.len() && (#[trigger] side.required_paths@[i])@ == text {
            let i = choose|i: int|
                0 <= i < side.required_paths@.len() && (#[trigger] side.required_paths@[i])@
                    == text;
            assert(list[i] == text);
        }
    }
}

/// Whether what stands for what is known has the file, its text, the changed part and the rule.
pub open spec fn keeps_state(state: FindRulesState) -> bool {
    &&& state@.modified_file_name == state.modified_file_name@
    &&& state@.modified_source == state.modified_source@
    &&& state@.changed_span == state.changed_span
    &&& state@.result == state.result@
}

proof fn lemma_writes_of_all(values: Seq<u64>)
    ensures
        writes_of_all(values).len() == values.len(),
        forall|i: int|
            0 <= i < values.len() ==> #[trigger] writes_of_all(values)[i] == spec_u64_to_le_bytes(
                values[i],
            ),
    decreases values.len(),
{
    if values.len() > 0 {
        lemma_writes_of_all(values.drop_last());
    }
}

/// Hashing a list writes how many values it has, and then each of them in turn.
pub proof fn law_hash_of_list_goes_by_each_value(values: Vec<u64>)
    ensures
        values.writes().len() == values@.len() + 1,
        values.writes()[0] == spec_u64_to_le_bytes(values@.len() as u64),
        forall|i: int|
            0 <= i < values@.len() ==> values.writes()[i + 1] == spec_u64_to_le_bytes(
                #[trigger] values@[i],
            ),
{
    lemma_writes_of_all(values@);
    assert forall|i: int| 0 <= i < values@.len() implies values.writes()[i + 1]
        == spec_u64_to_le_bytes(#[trigger] values@[i]) by {
        assert(values.writes()[i + 1] == writes_of_all(values@)[i]);
    }
}

/// Two sequences differ first where both have a byte, the bytes are not the same, and all before
/// are. They do not differ only if one of them is how the other starts.
pub proof fn law_first_difference_is_behind_common_start(a: Seq<u8>, b: Seq<u8>)
    ensures
        match first_difference(a, b) {
            Some(n) => {
                &&& 0 <= n < a.len()
                &&& n < b.len()
                &&& a[n] != b[n]
                &&& a.take(n) == b.take(n)
            },
            None => a == b.take(a.len() as int) && a.len() <= b.len() || b == a.take(
                b.len() as int,
            ) && b.len() <= a.len(),
        },
{
    match first_difference(a, b) {
        Some(n) => {
            assert(differ_first_at(a, b, n));
            assert(a.take(n) =~= b.take(n));
        },
        None => {
            let m = if a.len() <= b.len() { a.len() } else { b.len() };
            assert forall|i: int| 0 <= i < m implies a[i] == b[i] by {
                lemma_same_up_to(a, b, i);
            }
            if a.len() <= b.len() {
                assert(a =~= b.take(a.len() as int));
            } else {
                assert(b =~= a.take(b.len() as int));
            }
        },
    }
}

proof fn lemma_same_up_to(a: Seq<u8>, b: Seq<u8>, i: int)
    requires
        first_difference(a, b) is None,
        0 <= i < a.len(),
        i < b.len(),
    ensures
        a[i] == b[i],
    decreases i,
{
    assert forall|j: int| 0 <= j < i implies #[trigger] a[j] == b[j] by {
        lemma_same_up_to(a, b, j);
    }
    assert(!differ_first_at(a, b, i));
}

} // verus!
