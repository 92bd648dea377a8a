use crate::analysis::{by_position, position_keys};
use crate::codemap::{snippet_in, FileView};
use crate::hir::Node;
use crate::laws::matching::disjoint;
use crate::matcher::PlaceholderView;
use crate::order::{comes_before, lemma_arranged_items, lemma_order_exists, stable_order};
use crate::paths::{referenced_at, referenced_in};
use crate::rule::{by_start, spliced, start_keys, substituted};
use crate::span::Span;
use crate::text::{
    is_ascending, is_listing, lemma_text_order_is_strict, lemma_text_order_is_total,
    lemma_text_order_is_transitive, listing, text_before,
};
use vstd::prelude::*;
use vstd::utf8::*;

verus! {

/// Whether no two files share a position.
pub open spec fn files_stand_apart(files: Seq<FileView>) -> bool {
    forall|i: int, j: int|
        0 <= i < j < files.len() ==> (#[trigger] files[i]).end() < (#[trigger] files[j]).start_pos
            || files[j].end() < files[i].start_pos
}

/// Whether substitutions can be made in `span` of a file: each takes the place of a text within
/// that span, none of them is empty, and no two of them overlap.
pub open spec fn are_substitutions(
    file: FileView,
    span: Span,
    substitutions: Seq<(Span, Seq<char>)>,
) -> bool {
    &&& file.snippet(span.lo as int, span.hi as int) is Some
    &&& forall|i: int|
        0 <= i < substitutions.len() ==> {
            let place = (#[trigger] substitutions[i]).0;
            &&& span.covers(place)
            &&& place.lo < place.hi
            &&& file.snippet(place.lo as int, place.hi as int) is Some
        }
    &&& forall|i: int, j: int|
        0 <= i < substitutions.len() && 0 <= j < substitutions.len() && i != j ==> disjoint(
            (#[trigger] substitutions[i]).0,
            (#[trigger] substitutions[j]).0,
        )
}

/// Whether each substitution puts back the text whose place it takes.
pub open spec fn put_back_text(file: FileView, substitutions: Seq<(Span, Seq<char>)>) -> bool {
    forall|i: int|
        0 <= i < substitutions.len() ==> file.snippet(
            (#[trigger] substitutions[i]).0.lo as int,
            substitutions[i].0.hi as int,
        ) == Some(substitutions[i].1)
}

/// A code map gives the text that the file gives whose positions are asked for.
pub proof fn lemma_snippet_of_file(files: Seq<FileView>, k: int, lo: int, hi: int)
    requires
        files_stand_apart(files),
        0 <= k < files.len(),
        files[k].holds(lo, hi),
    ensures
        snippet_in(files, lo, hi) == files[k].snippet(lo, hi),
    decreases files.len(),
{
    if k > 0 {
        assert(!files[0].holds(lo, hi)) by {
            assert(files[0].end() < files[k].start_pos || files[k].end() < files[0].start_pos);
        }
        let rest = files.skip(1);
        assert(rest[k - 1] == files[k]);
        assert forall|i: int, j: int| 0 <= i < j < rest.len() implies (#[trigger] rest[i]).end() < (
        #[trigger] rest[j]).start_pos || rest[j].end() < rest[i].start_pos by {
            assert(rest[i] == files[i + 1] && rest[j] == files[j + 1]);
        }
        lemma_snippet_of_file(rest, k - 1, lo, hi);
    }
}

/// The text from `lo` to `hi` is that from `lo` to a place between, and that from there to `hi`.
proof fn lemma_texts_join(file: FileView, lo: int, mid: int, hi: int)
    requires
        file.start_pos <= lo <= mid <= hi <= file.end(),
        file.text(lo, hi) is Some,
        is_char_boundary(file.bytes(), mid - file.start_pos),
    ensures
        file.text(lo, mid) is Some,
        file.text(mid, hi) is Some,
        file.text(lo, hi)->0 == file.text(lo, mid)->0 + file.text(mid, hi)->0,
{
    let bytes = file.bytes();
    let from = lo - file.start_pos;
    let at = mid - file.start_pos;
    let to = hi - file.start_pos;
    encode_utf8_valid_utf8(file.src);
    let tail = bytes.subrange(from, bytes.len() as int);
    valid_utf8_split(bytes, from);
    lemma_boundary_in_tail(bytes, from, to);
    lemma_boundary_in_tail(bytes, from, at);
    let piece = tail.subrange(0, to - from);
    valid_utf8_split(tail, to - from);
    assert(piece =~= bytes.subrange(from, to));
    if at < to {
        is_char_boundary_iff_not_is_continuation_byte(tail, at - from);
        is_char_boundary_iff_not_is_continuation_byte(piece, at - from);
        assert(piece[at - from] == tail[at - from]);
    } else {
        is_char_boundary_start_end_of_seq(piece);
    }
    decode_utf8_split(piece, at - from);
    assert(piece.subrange(0, at - from) =~= bytes.subrange(from, at));
    assert(piece.subrange(at - from, piece.len() as int) =~= bytes.subrange(at, to));
}

/// A character that starts in a text starts in what is left of it behind an earlier one.
pub proof fn lemma_boundary_in_tail(bytes: Seq<u8>, from: int, at: int)
    requires
        valid_utf8(bytes),
        0 <= from <= at <= bytes.len(),
        is_char_boundary(bytes, from),
        is_char_boundary(bytes, at),
    ensures
        is_char_boundary(bytes.subrange(from, bytes.len() as int), at - from),
{
    let tail = bytes.subrange(from, bytes.len() as int);
    valid_utf8_split(bytes, from);
    if at < bytes.len() {
        is_char_boundary_iff_not_is_continuation_byte(bytes, at);
        is_char_boundary_iff_not_is_continuation_byte(tail, at - from);
        assert(tail[at - from] == bytes[at]);
    } else {
        is_char_boundary_start_end_of_seq(tail);
    }
}

/// Whether each substitution comes behind those before it.
spec fn are_in_order(substitutions: Seq<(Span, Seq<char>)>) -> bool {
    forall|i: int, j: int|
        0 <= i < j < substitutions.len() ==> (#[trigger] substitutions[i]).0.hi <= (
        #[trigger] substitutions[j]).0.lo
}

proof fn lemma_order_of_substitutions(
    file: FileView,
    span: Span,
    substitutions: Seq<(Span, Seq<char>)>,
)
    requires
        are_substitutions(file, span, substitutions),
    ensures
        are_substitutions(file, span, by_start(substitutions)),
        are_in_order(by_start(substitutions)),
        put_back_text(file, substitutions) ==> put_back_text(file, by_start(substitutions)),
{
    let keys = start_keys(substitutions);
    let order = stable_order(keys);
    let sorted = by_start(substitutions);
    lemma_order_exists(keys);
    assert forall|i: int| 0 <= i < sorted.len() implies #[trigger] sorted[i]
        == substitutions[order[i]] by {}
    assert forall|i: int, j: int| 0 <= i < j < sorted.len() implies (#[trigger] sorted[i]).0.hi <= (
    #[trigger] sorted[j]).0.lo by {
        assert(comes_before(keys, order[i], order[j]));
        assert(disjoint(substitutions[order[i]].0, substitutions[order[j]].0));
    }
    assert forall|i: int, j: int|
        0 <= i < sorted.len() && 0 <= j < sorted.len() && i != j implies disjoint(
        (#[trigger] sorted[i]).0,
        (#[trigger] sorted[j]).0,
    ) by {
        if i < j {
            assert(sorted[i].0.hi <= sorted[j].0.lo);
        } else {
            assert(sorted[j].0.hi <= sorted[i].0.lo);
        }
    }
}

proof fn lemma_splice(
    files: Seq<FileView>,
    k: int,
    start: u32,
    substitutions: Seq<(Span, Seq<char>)>,
    end: u32,
)
    requires
        files_stand_apart(files),
        0 <= k < files.len(),
        start <= end,
        are_substitutions(files[k], Span::between(start, end), substitutions),
        are_in_order(substitutions),
    ensures
        spliced(files, start, substitutions, end) is Some,
        put_back_text(files[k], substitutions) ==> spliced(files, start, substitutions, end)
            == files[k].snippet(start as int, end as int),
    decreases substitutions.len(),
{
    let file = files[k];
    if substitutions.len() == 0 {
        lemma_snippet_of_file(files, k, start as int, end as int);
    } else {
        let (place, text) = substitutions[0];
        let rest = substitutions.skip(1);
        lemma_snippet_of_file(files, k, start as int, place.lo as int);
        lemma_texts_join(file, start as int, place.lo as int, end as int);
        lemma_texts_join(file, place.lo as int, place.hi as int, end as int);
        assert forall|i: int| 0 <= i < rest.len() implies {
            let next = (#[trigger] rest[i]).0;
            &&& Span::between(place.hi, end).covers(next)
            &&& next.lo < next.hi
            &&& file.snippet(next.lo as int, next.hi as int) is Some
        } by {
            assert(rest[i] == substitutions[i + 1]);
        }
        assert forall|i: int, j: int|
            0 <= i < rest.len() && 0 <= j < rest.len() && i != j implies disjoint(
            (#[trigger] rest[i]).0,
            (#[trigger] rest[j]).0,
        ) by {
            assert(rest[i] == substitutions[i + 1] && rest[j] == substitutions[j + 1]);
        }
        assert forall|i: int, j: int| 0 <= i < j < rest.len() implies (#[trigger] rest[i]).0.hi <= (
        #[trigger] rest[j]).0.lo by {
            assert(rest[i] == substitutions[i + 1] && rest[j] == substitutions[j + 1]);
        }
        lemma_splice(files, k, place.hi, rest, end);
        if put_back_text(file, substitutions) {
            assert forall|i: int| 0 <= i < rest.len() implies file.snippet(
                (#[trigger] rest[i]).0.lo as int,
                rest[i].0.hi as int,
            ) == Some(rest[i].1) by {
                assert(rest[i] == substitutions[i + 1]);
            }
            let before = file.text(start as int, place.lo as int)->0;
            let behind = file.text(place.hi as int, end as int)->0;
            assert(before + text + behind =~= before + (text + behind));
        }
    }
}

/// Substitutions within one file can be made, whatever text they put in.
pub proof fn law_substitutions_can_be_made(
    files: Seq<FileView>,
    k: int,
    span: Span,
    substitutions: Seq<(Span, Seq<char>)>,
)
    requires
        files_stand_apart(files),
        0 <= k < files.len(),
        are_substitutions(files[k], span, substitutions),
    ensures
        substituted(files, span, substitutions) is Some,
{
    lemma_order_of_substitutions(files[k], span, substitutions);
    lemma_splice(files, k, span.lo, by_start(substitutions), span.hi);
}

/// Substituting for each placeholder the text that stands there leaves the code as it is, in
/// whatever order the placeholders come.
pub proof fn law_putting_text_back_leaves_code(
    files: Seq<FileView>,
    k: int,
    span: Span,
    substitutions: Seq<(Span, Seq<char>)>,
)
    requires
        files_stand_apart(files),
        0 <= k < files.len(),
        are_substitutions(files[k], span, substitutions),
        put_back_text(files[k], substitutions),
    ensures
        substituted(files, span, substitutions) == snippet_in(
            files,
            span.lo as int,
            span.hi as int,
        ),
{
    lemma_order_of_substitutions(files[k], span, substitutions);
    lemma_splice(files, k, span.lo, by_start(substitutions), span.hi);
    lemma_snippet_of_file(files, k, span.lo as int, span.hi as int);
}

/// Without placeholders the code stays as it is.
pub proof fn law_no_substitution_leaves_code(files: Seq<FileView>, span: Span)
    requires
        span.lo <= span.hi,
    ensures
        substituted(files, span, Seq::empty()) == snippet_in(
            files,
            span.lo as int,
            span.hi as int,
        ),
{
    assert(by_start(Seq::empty()) =~= Seq::<(Span, Seq<char>)>::empty());
}

/// Substitutions are made in the order of the places where they start, in whatever order they are
/// given.
pub proof fn law_substitution_goes_by_position(
    substitutions: Seq<(Span, Seq<char>)>,
    i: int,
    j: int,
)
    requires
        0 <= i < j < substitutions.len(),
    ensures
        by_start(substitutions)[i].0.lo <= by_start(substitutions)[j].0.lo,
{
    let keys = start_keys(substitutions);
    lemma_order_exists(keys);
    assert(comes_before(keys, stable_order(keys)[i], stable_order(keys)[j]));
}

/// The placeholders of a rule are those that were found, in the order in which they appear in the
/// original code.
pub proof fn law_placeholders_appear_in_order(placeholders: Seq<PlaceholderView>)
    ensures
        by_position(placeholders).len() == placeholders.len(),
        forall|p: PlaceholderView| #[trigger]
            by_position(placeholders).contains(p) <==> placeholders.contains(p),
        forall|i: int, j: int|
            0 <= i < j < placeholders.len() ==> (#[trigger] by_position(
                placeholders,
            )[i]).expr.span.lo <= (#[trigger] by_position(placeholders)[j]).expr.span.lo,
{
    let keys = position_keys(placeholders);
    lemma_order_exists(keys);
    lemma_arranged_items(placeholders, keys);
    let order = stable_order(keys);
    assert forall|i: int, j: int| 0 <= i < j < placeholders.len() implies (#[trigger] by_position(
        placeholders,
    )[i]).expr.span.lo <= (#[trigger] by_position(placeholders)[j]).expr.span.lo by {
        assert(comes_before(keys, order[i], order[j]));
    }
}

/// An expression names finitely many paths.
pub proof fn law_paths_are_finite(nodes: Seq<Node>)
    ensures
        referenced_in(nodes).finite(),
    decreases nodes,
{
    if nodes.len() > 0 {
        law_paths_are_finite(nodes.drop_last());
        lemma_paths_at_are_finite(nodes.last());
    }
}

proof fn lemma_paths_at_are_finite(node: Node)
    ensures
        referenced_at(node).finite(),
    decreases node,
{
    match node {
        Node::Item(item) => law_paths_are_finite(item.children@),
        Node::Body(body) => law_paths_are_finite(body.children@),
        Node::Expr(expr) => law_paths_are_finite(expr.children@),
        Node::Path(_) => {},
    }
}

/// The paths of a rule are imported in order, and each of them once.
pub proof fn law_imports_are_in_order(paths: Set<Seq<char>>)
    requires
        paths.finite(),
    ensures
        is_ascending(listing(paths)),
        listing(paths).no_duplicates(),
        listing(paths).to_set() == paths,
    decreases paths.len(),
{
    lemma_listing_exists(paths);
    let list = listing(paths);
    assert forall|i: int, j: int|
        0 <= i < list.len() && 0 <= j < list.len() && i != j implies list[i] != list[j] by {
        lemma_text_order_is_strict(list[i], list[j]);
        if i < j {
            assert(text_before(list[i], list[j]));
            lemma_text_order_is_strict(list[i], list[i]);
        } else {
            assert(text_before(list[j], list[i]));
            lemma_text_order_is_strict(list[j], list[j]);
        }
    }
}

proof fn lemma_listing_exists(paths: Set<Seq<char>>)
    requires
        paths.finite(),
    ensures
        exists|list: Seq<Seq<char>>| is_listing(list, paths),
    decreases paths.len(),
{
    if paths.len() == 0 {
        assert(paths =~= Set::empty());
        assert(Seq::<Seq<char>>::empty().to_set() =~= paths);
        assert(is_listing(Seq::empty(), paths));
    } else {
        let path = paths.choose();
        let others = paths.remove(path);
        lemma_listing_exists(others);
        let list = choose|list: Seq<Seq<char>>| is_listing(list, others);
        let at = lemma_place_in_list(list, path, list.len() as int);
        let longer = list.insert(at, path);
        assert forall|i: int, j: int| 0 <= i < j < longer.len() implies text_before(
            #[trigger] longer[i],
            #[trigger] longer[j],
        ) by {
            let oi = if i < at { i } else { i - 1 };
            let oj = if j < at { j } else { j - 1 };
            if i != at {
                assert(longer[i] == list[oi]);
            }
            if j != at {
                assert(longer[j] == list[oj]);
            }
        }
        assert forall|t: Seq<char>|
            longer.to_set().contains(t) <==> #[trigger] paths.contains(t) by {
            if longer.to_set().contains(t) {
                let k = choose|k: int| 0 <= k < longer.len() && longer[k] == t;
                if k != at {
                    let ok = if k < at { k } else { k - 1 };
                    assert(list[ok] == t);
                    assert(list.to_set().contains(t));
                    assert(others.contains(t));
                }
            }
            if paths.contains(t) {
                if t == path {
                    assert(longer[at] == t);
                } else {
                    assert(others.contains(t));
                    assert(list.to_set().contains(t));
                    let k = choose|k: int| 0 <= k < list.len() && list[k] == t;
                    if k < at {
                        assert(longer[k] == t);
                    } else {
                        assert(longer[k + 1] == t);
                    }
                }
            }
        }
        assert(longer.to_set() =~= paths);
        assert(is_listing(longer, paths));
    }
}

/// Where a text belongs among the first `n` of a list, and before those behind them.
proof fn lemma_place_in_list(list: Seq<Seq<char>>, text: Seq<char>, n: int) -> (at: int)
    requires
        is_ascending(list),
        !list.to_set().contains(text),
        0 <= n <= list.len(),
        forall|i: int| n <= i < list.len() ==> text_before(text, #[trigger] list[i]),
    ensures
        0 <= at <= list.len(),
        forall|i: int| 0 <= i < at ==> text_before(#[trigger] list[i], text),
        forall|i: int| at <= i < list.len() ==> text_before(text, #[trigger] list[i]),
    decreases n,
{
    if n == 0 {
        0
    } else {
        let last = list[n - 1];
        assert(list.to_set().contains(last));
        lemma_text_order_is_total(last, text);
        if text_before(last, text) {
            assert forall|i: int| 0 <= i < n implies text_before(#[trigger] list[i], text) by {
                if i < n - 1 {
                    assert(text_before(list[i], list[n - 1]));
                    lemma_text_order_is_transitive(list[i], last, text);
                }
            }
            n
        } else {
            lemma_place_in_list(list, text, n - 1)
        }
    }
}

} // verus!
