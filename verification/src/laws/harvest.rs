use crate::candidate::{
    candidate_of, candidate_writes, candidates_at, candidates_in, candidates_within, CandidateView,
    DataOf,
};
use crate::codemap::{snippet_in, FileView};
use crate::error::RuleError;
use crate::hir::{Expr, Node};
use crate::laws::reproduction::{outermost, outermost_at};
use crate::token::{stream_hash, token_count, token_writes, Lexing, TokenView};
use std::collections::hash_map::DefaultHasher;
use vstd::bytes::*;
use vstd::prelude::*;
use vstd::std_specs::hash::*;

verus! {

/// The parts of an expression that may become placeholders: all of them, but for the function that
/// a call calls, which is the first.
pub open spec fn open_parts(expr: Expr) -> Seq<Node> {
    if !expr.is_call || expr.children@.len() == 0 {
        expr.children@
    } else {
        expr.children@.skip(1)
    }
}

/// What may become a placeholder within an expression are its open parts: a call leaves out just
/// its first part, and every other expression leaves out nothing.
pub proof fn law_call_leaves_out_what_it_calls(expr: Expr)
    ensures
        expr.is_call && expr.children@.len() > 0 ==> expr.children@ == seq![expr.children@[0]]
            + expr.operands(),
        !expr.is_call || expr.children@.len() == 0 ==> expr.operands() == expr.children@,
{
    if expr.is_call && expr.children@.len() > 0 {
        assert(expr.children@ =~= seq![expr.children@[0]] + expr.operands());
    }
}

/// How many tokens there are, those between delimiters included.
pub open spec fn number_of_tokens(trees: Seq<TokenView>) -> nat
    decreases trees,
{
    if trees.len() == 0 {
        0
    } else {
        number_of_tokens(trees.skip(1)) + match trees[0] {
            TokenView::Token(_) => 1,
            TokenView::Delimited(_, inner) => number_of_tokens(inner),
        }
    }
}

proof fn lemma_token_count_from_front(trees: Seq<TokenView>)
    requires
        trees.len() > 0,
    ensures
        token_count(trees) == token_count(trees.skip(1)) + match trees[0] {
            TokenView::Token(_) => 1,
            TokenView::Delimited(_, inner) => token_count(inner),
        },
    decreases trees.len(),
{
    let front = trees.drop_last();
    if front.len() == 0 {
        assert(token_count(front) == 0);
        assert(trees.skip(1) =~= Seq::empty());
        assert(token_count(trees.skip(1)) == 0);
    } else {
        lemma_token_count_from_front(front);
        assert(front.skip(1) =~= trees.skip(1).drop_last());
        assert(trees.skip(1).last() == trees.last());
    }
}

/// Every token counts, the ones between delimiters too, and delimiters do not. The hash of tokens
/// is that of as many fixed groups of bytes.
pub proof fn law_hash_of_tokens_goes_by_their_number(trees: Seq<TokenView>)
    ensures
        token_count(trees) == number_of_tokens(trees),
        token_writes(token_count(trees)) == Seq::new(
            number_of_tokens(trees),
            |i: int| seq![42u8, 0u8, 0u8, 0u8],
        ),
        stream_hash(trees) == DefaultHasher::spec_finish(
            Seq::new(number_of_tokens(trees), |i: int| seq![42u8, 0u8, 0u8, 0u8]),
        ),
    decreases trees,
{
    if trees.len() > 0 {
        lemma_token_count_from_front(trees);
        law_hash_of_tokens_goes_by_their_number(trees.skip(1));
        if let TokenView::Delimited(_, inner) = trees[0] {
            law_hash_of_tokens_goes_by_their_number(inner);
        }
    }
    assert(token_writes(token_count(trees)) =~= Seq::new(
        number_of_tokens(trees),
        |i: int| seq![42u8, 0u8, 0u8, 0u8],
    ));
}

/// What each of the expressions gives as a candidate.
spec fn candidates_of<T>(
    exprs: Seq<Expr>,
    codemap: Seq<FileView>,
    lx: Lexing,
    data: DataOf<T>,
) -> Result<Seq<CandidateView<T>>, RuleError>
    decreases exprs.len(),
{
    if exprs.len() == 0 {
        Ok(Seq::empty())
    } else {
        match candidates_of(exprs.drop_last(), codemap, lx, data) {
            Err(e) => Err(e),
            Ok(before) => match candidate_of(exprs.last(), codemap, lx, data) {
                Err(e) => Err(e),
                Ok(candidate) => Ok(before.push(candidate)),
            },
        }
    }
}

proof fn lemma_candidates_of_add<T>(
    a: Seq<Expr>,
    b: Seq<Expr>,
    codemap: Seq<FileView>,
    lx: Lexing,
    data: DataOf<T>,
)
    ensures
        candidates_of(a + b, codemap, lx, data) == match candidates_of(a, codemap, lx, data) {
            Err(e) => Err(e),
            Ok(before) => match candidates_of(b, codemap, lx, data) {
                Err(e) => Err(e),
                Ok(behind) => Ok(before + behind),
            },
        },
    decreases b.len(),
{
    if b.len() == 0 {
        assert(a + b =~= a);
        if let Ok(before) = candidates_of(a, codemap, lx, data) {
            assert(before + Seq::empty() =~= before);
        }
    } else {
        lemma_candidates_of_add(a, b.drop_last(), codemap, lx, data);
        assert((a + b).drop_last() =~= a + b.drop_last());
        assert((a + b).last() == b.last());
        if let Ok(before) = candidates_of(a, codemap, lx, data) {
            if let Ok(behind) = candidates_of(b.drop_last(), codemap, lx, data) {
                if let Ok(candidate) = candidate_of(b.last(), codemap, lx, data) {
                    assert((before + behind).push(candidate) =~= before + behind.push(candidate));
                }
            }
        }
    }
}

proof fn lemma_candidates_in<T>(
    nodes: Seq<Node>,
    codemap: Seq<FileView>,
    lx: Lexing,
    data: DataOf<T>,
)
    ensures
        candidates_in(nodes, codemap, lx, data) == candidates_of(
            outermost(nodes),
            codemap,
            lx,
            data,
        ),
    decreases nodes,
{
    if nodes.len() > 0 {
        lemma_candidates_in(nodes.drop_last(), codemap, lx, data);
        lemma_candidates_at(nodes.last(), codemap, lx, data);
        lemma_candidates_of_add(
            outermost(nodes.drop_last()),
            outermost_at(nodes.last()),
            codemap,
            lx,
            data,
        );
    }
}

proof fn lemma_candidates_at<T>(node: Node, codemap: Seq<FileView>, lx: Lexing, data: DataOf<T>)
    ensures
        candidates_at(node, codemap, lx, data) == candidates_of(
            outermost_at(node),
            codemap,
            lx,
            data,
        ),
    decreases node,
{
    match node {
        Node::Item(item) => lemma_candidates_in(item.children@, codemap, lx, data),
        Node::Body(body) => lemma_candidates_in(body.children@, codemap, lx, data),
        Node::Path(path) => lemma_candidates_in(path.children@, codemap, lx, data),
        Node::Expr(expr) => {
            let one = seq![expr];
            assert(one.drop_last() =~= Seq::empty());
            assert(candidates_of(one.drop_last(), codemap, lx, data) == Ok::<
                Seq<CandidateView<T>>,
                RuleError,
            >(Seq::empty()));
            assert(one.last() == expr);
            if let Ok(candidate) = candidate_of(expr, codemap, lx, data) {
                assert(Seq::empty().push(candidate) =~= seq![candidate]);
            }
        },
    }
}

/// Whether an expression makes this candidate. The candidate keeps what is due of the expression
/// and has what is found within the expression. If there is nothing within it then its hash goes by
/// the number of its tokens, and else by how many candidates there are within it and their hashes.
pub open spec fn makes<T>(
    expr: Expr,
    codemap: Seq<FileView>,
    lx: Lexing,
    data: DataOf<T>,
    candidate: CandidateView<T>,
) -> bool {
    &&& data(expr) == Ok::<T, RuleError>(candidate.data)
    &&& candidates_within(expr, codemap, lx, data) == Ok::<Seq<CandidateView<T>>, RuleError>(
        candidate.children,
    )
    &&& if candidate.children.len() == 0 {
        snippet_in(codemap, expr.span.lo as int, expr.span.hi as int) matches Some(text)
            && candidate.hash == DefaultHasher::spec_finish(
            Seq::new(number_of_tokens(lx(text)), |i: int| seq![42u8, 0u8, 0u8, 0u8]),
        )
    } else {
        candidate.hash == DefaultHasher::spec_finish(
            seq![spec_u64_to_le_bytes(candidate.children.len() as u64)]
                + candidate.children.map_values(
                |child: CandidateView<T>| spec_u64_to_le_bytes(child.hash),
            ),
        )
    }
}

/// Whether an expression makes no candidate, and the error says why: there is nothing to keep of
/// it, or something within it makes none, or it has nothing within it and no text.
pub open spec fn makes_none<T>(
    expr: Expr,
    codemap: Seq<FileView>,
    lx: Lexing,
    data: DataOf<T>,
    error: RuleError,
) -> bool {
    match data(expr) {
        Err(e) => e == error,
        Ok(_) => match candidates_within(expr, codemap, lx, data) {
            Err(e) => e == error,
            Ok(children) => children.len() == 0 && snippet_in(
                codemap,
                expr.span.lo as int,
                expr.span.hi as int,
            ) is None && error is NoSnippet,
        },
    }
}

proof fn lemma_candidate_of<T>(expr: Expr, codemap: Seq<FileView>, lx: Lexing, data: DataOf<T>)
    ensures
        match candidate_of(expr, codemap, lx, data) {
            Ok(candidate) => makes(expr, codemap, lx, data, candidate),
            Err(e) => makes_none(expr, codemap, lx, data, e),
        },
{
    if let Ok(candidate) = candidate_of(expr, codemap, lx, data) {
        let children = candidate.children;
        if children.len() == 0 {
            let text = snippet_in(codemap, expr.span.lo as int, expr.span.hi as int)->0;
            law_hash_of_tokens_goes_by_their_number(lx(text));
        } else {
            assert(candidate_writes(children) =~= seq![
                spec_u64_to_le_bytes(children.len() as u64),
            ] + children.map_values(|child: CandidateView<T>| spec_u64_to_le_bytes(child.hash)));
        }
    }
}

/// Whether candidates are those that expressions make, each of its own and in the same order.
pub open spec fn are_made_of<T>(
    candidates: Seq<CandidateView<T>>,
    exprs: Seq<Expr>,
    codemap: Seq<FileView>,
    lx: Lexing,
    data: DataOf<T>,
) -> bool {
    &&& candidates.len() == exprs.len()
    &&& forall|i: int|
        0 <= i < exprs.len() ==> makes(#[trigger] exprs[i], codemap, lx, data, candidates[i])
}

proof fn lemma_candidates_of<T>(
    exprs: Seq<Expr>,
    codemap: Seq<FileView>,
    lx: Lexing,
    data: DataOf<T>,
)
    ensures
        match candidates_of(exprs, codemap, lx, data) {
            Ok(candidates) => are_made_of(candidates, exprs, codemap, lx, data),
            Err(e) => exists|i: int| #[trigger]
                is_first_to_make_none(exprs, i, codemap, lx, data, e),
        },
    decreases exprs.len(),
{
    if exprs.len() > 0 {
        let front = exprs.drop_last();
        lemma_candidates_of(front, codemap, lx, data);
        lemma_candidate_of(exprs.last(), codemap, lx, data);
        match candidates_of(front, codemap, lx, data) {
            Ok(before) => {
                let here = candidate_of(exprs.last(), codemap, lx, data);
                if let Ok(candidate) = here {
                    let candidates = before.push(candidate);
                    assert forall|i: int| 0 <= i < exprs.len() implies makes(
                        #[trigger] exprs[i],
                        codemap,
                        lx,
                        data,
                        candidates[i],
                    ) by {
                        if i < front.len() {
                            assert(front[i] == exprs[i]);
                        }
                    }
                } else {
                    let n = exprs.len() - 1;
                    assert forall|j: int| 0 <= j < n implies makes_one(
                        #[trigger] exprs[j],
                        codemap,
                        lx,
                        data,
                    ) by {
                        assert(front[j] == exprs[j]);
                        assert(makes(exprs[j], codemap, lx, data, before[j]));
                    }
                    assert(is_first_to_make_none(exprs, n, codemap, lx, data, here->Err_0));
                }
            },
            Err(e) => {
                let i = choose|i: int| #[trigger]
                    is_first_to_make_none(front, i, codemap, lx, data, e);
                assert(front[i] == exprs[i]);
                assert forall|j: int| 0 <= j < i implies makes_one(
                    #[trigger] exprs[j],
                    codemap,
                    lx,
                    data,
                ) by {
                    assert(front[j] == exprs[j]);
                }
                assert(is_first_to_make_none(exprs, i, codemap, lx, data, e));
            },
        }
    }
}

/// Whether an expression makes a candidate.
pub open spec fn makes_one<T>(
    expr: Expr,
    codemap: Seq<FileView>,
    lx: Lexing,
    data: DataOf<T>,
) -> bool {
    exists|candidate: CandidateView<T>| #[trigger] makes(expr, codemap, lx, data, candidate)
}

/// Whether expression number `i` is the first that makes no candidate.
pub open spec fn is_first_to_make_none<T>(
    exprs: Seq<Expr>,
    i: int,
    codemap: Seq<FileView>,
    lx: Lexing,
    data: DataOf<T>,
    error: RuleError,
) -> bool {
    &&& 0 <= i < exprs.len()
    &&& makes_none(exprs[i], codemap, lx, data, error)
    &&& forall|j: int|
        0 <= j < i ==> makes_one(#[trigger] exprs[j], codemap, lx, data)
}

/// The candidates within an expression are what the outermost expressions among its open parts
/// make, every one of them and in that order, whatever kinds of expression they are. The expression
/// itself is no candidate, and neither is the function that a call calls. There are no candidates
/// only where one of these expressions makes none, or there is nothing to keep of the expression
/// itself.
pub proof fn law_candidates_are_what_open_parts_make<T>(
    expr: Expr,
    codemap: Seq<FileView>,
    lx: Lexing,
    data: DataOf<T>,
)
    ensures
        match candidates_within(expr, codemap, lx, data) {
            Ok(candidates) => data(expr) is Ok && are_made_of(
                candidates,
                outermost(open_parts(expr)),
                codemap,
                lx,
                data,
            ),
            Err(e) => data(expr) == Err::<T, RuleError>(e) || data(expr) is Ok && exists|i: int|
                #[trigger] is_first_to_make_none(
                    outermost(open_parts(expr)),
                    i,
                    codemap,
                    lx,
                    data,
                    e,
                ),
        },
{
    assert(expr.operands() =~= open_parts(expr));
    lemma_candidates_in(open_parts(expr), codemap, lx, data);
    lemma_candidates_of(outermost(open_parts(expr)), codemap, lx, data);
}

} // verus!
