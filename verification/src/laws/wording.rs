use crate::codemap::{snippet_in, FileView};
use crate::error::RuleError;
use crate::hir::{Expr, Generics, Item};
use crate::laws::ordering::{
    are_in_order_of_places, is_dictionary_of, law_listing_is_dictionary,
    law_substitutions_go_by_start_of_place,
};
use crate::laws::rule::{law_imports_are_in_order, law_paths_are_finite};
use crate::laws::tree::{law_imports_are_the_named_paths, names_import};
use crate::matcher::PlaceholderView;
use crate::paths::referenced_in;
use crate::rule::{
    by_start, declarations, imports, replacement_substitutions, rule, rule_generics,
    search_substitutions, snippets, spliced, substituted, text_between, uses_type_params,
    where_clause,
};
use crate::span::Span;
use crate::text::{decimal, joined, listing};
use vstd::prelude::*;

verus! {

/// The texts one behind the other, with `separator` before each but the first.
pub open spec fn separated(parts: Seq<Seq<char>>, separator: Seq<char>) -> Seq<char>
    decreases parts.len(),
{
    if parts.len() == 0 {
        Seq::empty()
    } else if parts.len() == 1 {
        parts[0]
    } else {
        parts[0] + separator + separated(parts.skip(1), separator)
    }
}

/// Texts that are joined have the separator between any two of them, and nowhere else.
pub proof fn law_joined_texts_are_separated(parts: Seq<Seq<char>>, separator: Seq<char>)
    ensures
        joined(parts, separator) == separated(parts, separator),
    decreases parts.len(),
{
    if parts.len() == 2 {
        assert(parts.drop_last() =~= seq![parts[0]]);
        assert(parts.skip(1) =~= seq![parts[1]]);
        assert(joined(parts.drop_last(), separator) == parts[0]);
        assert(separated(parts.skip(1), separator) == parts[1]);
    } else if parts.len() > 2 {
        let front = parts.drop_last();
        let rest = parts.skip(1);
        law_joined_texts_are_separated(front, separator);
        law_joined_texts_are_separated(rest, separator);
        law_joined_texts_are_separated(rest.drop_last(), separator);
        assert(front.skip(1) =~= rest.drop_last());
        assert(joined(rest, separator) == joined(rest.drop_last(), separator) + separator
            + rest.last());
        assert(joined(front, separator) == parts[0] + separator + joined(
            rest.drop_last(),
            separator,
        ));
        assert(joined(parts, separator) =~= parts[0] + separator + joined(rest, separator));
    }
}

/// Whether texts are those of spans, each of its own.
pub open spec fn are_texts_of(
    files: Seq<FileView>,
    spans: Seq<Span>,
    list: Seq<Seq<char>>,
) -> bool {
    &&& list.len() == spans.len()
    &&& forall|i: int|
        0 <= i < spans.len() ==> snippet_in(
            files,
            (#[trigger] spans[i]).lo as int,
            spans[i].hi as int,
        ) == Some(list[i])
}

proof fn lemma_snippets(files: Seq<FileView>, spans: Seq<Span>)
    ensures
        snippets(files, spans) matches Some(list) ==> are_texts_of(files, spans, list),
        (forall|i: int|
            0 <= i < spans.len() ==> snippet_in(
                files,
                (#[trigger] spans[i]).lo as int,
                spans[i].hi as int,
            ) is Some) ==> snippets(files, spans) is Some,
    decreases spans.len(),
{
    if spans.len() > 0 {
        let front = spans.drop_last();
        lemma_snippets(files, front);
        if let Some(list) = snippets(files, spans) {
            assert forall|i: int| 0 <= i < spans.len() implies snippet_in(
                files,
                (#[trigger] spans[i]).lo as int,
                spans[i].hi as int,
            ) == Some(list[i]) by {
                if i < front.len() {
                    assert(front[i] == spans[i]);
                }
            }
        }
        if forall|i: int|
            0 <= i < spans.len() ==> snippet_in(
                files,
                (#[trigger] spans[i]).lo as int,
                spans[i].hi as int,
            ) is Some {
            assert forall|i: int| 0 <= i < front.len() implies snippet_in(
                files,
                (#[trigger] front[i]).lo as int,
                front[i].hi as int,
            ) is Some by {
                assert(front[i] == spans[i]);
            }
            assert(snippet_in(
                files,
                spans[spans.len() - 1].lo as int,
                spans[spans.len() - 1].hi as int,
            ) is Some);
        }
    }
}

/// Whether the texts of generic parameters and of their predicates can be had.
pub open spec fn can_be_read(files: Seq<FileView>, generics: Generics) -> bool {
    &&& snippet_in(files, generics.span.lo as int, generics.span.hi as int) is Some
    &&& forall|i: int|
        0 <= i < generics.where_predicates@.len() ==> snippet_in(
            files,
            (#[trigger] generics.where_predicates@[i]).lo as int,
            generics.where_predicates@[i].hi as int,
        ) is Some
}

/// Whether these are the generic parameters of a rule and its where clause as the source has them:
/// the text of the parameters, and behind ` where ` that of each predicate.
pub open spec fn are_generics_of(
    files: Seq<FileView>,
    generics: Generics,
    text: Seq<char>,
    where_text: Seq<char>,
) -> bool {
    &&& snippet_in(files, generics.span.lo as int, generics.span.hi as int) == Some(text)
    &&& exists|predicates: Seq<Seq<char>>|
        {
            &&& #[trigger] are_texts_of(files, generics.where_predicates@, predicates)
            &&& where_text == if predicates.len() == 0 {
                ""@
            } else {
                " where "@ + separated(predicates, ", "@)
            }
        }
}

/// A rule has the generic parameters of the item around it, with their predicates, as soon as a
/// type parameter occurs in the type of any one placeholder, whichever that is. It has none if
/// there is no such placeholder.
pub proof fn law_any_placeholder_brings_in_generics(
    files: Seq<FileView>,
    placeholders: Seq<PlaceholderView>,
    item: Item,
)
    ensures
        forall|i: int|
            0 <= i < placeholders.len() && (#[trigger] placeholders[i]).expr.ty.has_params ==> {
                match item.generics {
                    None => rule_generics(files, placeholders, item) == Err::<
                        (Seq<char>, Seq<char>),
                        RuleError,
                    >(RuleError::NoGenerics),
                    Some(generics) => match rule_generics(files, placeholders, item) {
                        Ok((text, where_text)) => are_generics_of(
                            files,
                            generics,
                            text,
                            where_text,
                        ),
                        Err(e) => e is NoSnippet && !can_be_read(files, generics),
                    },
                }
            },
        (forall|i: int|
            0 <= i < placeholders.len() ==> !(#[trigger] placeholders[i]).expr.ty.has_params)
            ==> rule_generics(files, placeholders, item) == Ok::<
            (Seq<char>, Seq<char>),
            RuleError,
        >((""@, ""@)),
        uses_type_params(placeholders) <==> exists|i: int|
            0 <= i < placeholders.len() && (#[trigger] placeholders[i]).expr.ty.has_params,
{
    reveal_strlit("");
    assert(""@ =~= Seq::empty());
    assert forall|i: int|
        0 <= i < placeholders.len() && (
        #[trigger] placeholders[i]).expr.ty.has_params implies uses_type_params(placeholders) by {}
    if let Some(generics) = item.generics {
        let spans = generics.where_predicates@;
        lemma_snippets(files, spans);
        if let Some(predicates) = snippets(files, spans) {
            law_joined_texts_are_separated(predicates, ", "@);
            assert(are_texts_of(files, spans, predicates));
            assert(where_clause(predicates) == if predicates.len() == 0 {
                ""@
            } else {
                " where "@ + separated(predicates, ", "@)
            });
        }
    }
}

/// Whether a text stands between two positions, whichever of them comes first.
pub open spec fn is_text_between(files: Seq<FileView>, a: u32, b: u32, text: Seq<char>) -> bool {
    if a <= b {
        snippet_in(files, a as int, b as int) == Some(text)
    } else {
        snippet_in(files, b as int, a as int) == Some(text)
    }
}

/// Where the text before substitution number `i` starts: at `start`, or behind the place of the
/// substitution before.
pub open spec fn gap_start(start: u32, list: Seq<(Span, Seq<char>)>, i: int) -> u32 {
    if i == 0 {
        start
    } else {
        list[i - 1].0.hi
    }
}

/// Where the text before substitution number `i` ends: at the place of that substitution, or at
/// `end` if there is none.
pub open spec fn gap_end(list: Seq<(Span, Seq<char>)>, end: u32, i: int) -> u32 {
    if i == list.len() {
        end
    } else {
        list[i].0.lo
    }
}

/// Whether these are the texts that stay, before, between and behind substitutions.
pub open spec fn are_gaps(
    files: Seq<FileView>,
    start: u32,
    list: Seq<(Span, Seq<char>)>,
    end: u32,
    gaps: Seq<Seq<char>>,
) -> bool {
    &&& gaps.len() == list.len() + 1
    &&& forall|i: int|
        0 <= i < gaps.len() ==> is_text_between(
            files,
            gap_start(start, list, i),
            gap_end(list, end, i),
            #[trigger] gaps[i],
        )
}

/// The texts that stay, with what substitutions put in between them.
pub open spec fn woven(gaps: Seq<Seq<char>>, list: Seq<(Span, Seq<char>)>) -> Seq<char>
    decreases list.len(),
{
    if list.len() == 0 {
        gaps[0]
    } else {
        gaps[0] + list[0].1 + woven(gaps.skip(1), list.skip(1))
    }
}

proof fn lemma_spliced(
    files: Seq<FileView>,
    start: u32,
    list: Seq<(Span, Seq<char>)>,
    end: u32,
)
    ensures
        match spliced(files, start, list, end) {
            Some(text) => exists|gaps: Seq<Seq<char>>| #[trigger]
                are_gaps(files, start, list, end, gaps) && text == woven(gaps, list),
            None => exists|i: int| 0 <= i <= list.len() && #[trigger]
                has_no_gap(files, start, list, end, i),
        },
    decreases list.len(),
{
    if list.len() == 0 {
        match text_between(files, start, end) {
            Some(text) => {
                let gaps = seq![text];
                assert(are_gaps(files, start, list, end, gaps));
            },
            None => {
                assert(has_no_gap(files, start, list, end, 0));
            },
        }
    } else {
        let rest = list.skip(1);
        let next = list[0].0.hi;
        lemma_spliced(files, next, rest, end);
        match (text_between(files, start, list[0].0.lo), spliced(files, next, rest, end)) {
            (Some(before), Some(behind)) => {
                let others = choose|gaps: Seq<Seq<char>>| #[trigger]
                    are_gaps(files, next, rest, end, gaps) && behind == woven(gaps, rest);
                let gaps = seq![before] + others;
                assert(gaps.skip(1) =~= others);
                assert forall|i: int| 0 <= i < gaps.len() implies is_text_between(
                    files,
                    gap_start(start, list, i),
                    gap_end(list, end, i),
                    #[trigger] gaps[i],
                ) by {
                    if i > 0 {
                        assert(gaps[i] == others[i - 1]);
                        assert(gap_start(next, rest, i - 1) == gap_start(start, list, i));
                        assert(gap_end(rest, end, i - 1) == gap_end(list, end, i));
                    }
                }
                assert(are_gaps(files, start, list, end, gaps));
            },
            (None, _) => {
                assert(has_no_gap(files, start, list, end, 0));
            },
            (_, None) => {
                let i = choose|i: int| 0 <= i <= rest.len() && #[trigger]
                    has_no_gap(files, next, rest, end, i);
                assert(gap_start(next, rest, i) == gap_start(start, list, i + 1));
                assert(gap_end(rest, end, i) == gap_end(list, end, i + 1));
                assert(has_no_gap(files, start, list, end, i + 1));
            },
        }
    }
}

/// Whether the text before substitution number `i` cannot be had.
pub open spec fn has_no_gap(
    files: Seq<FileView>,
    start: u32,
    list: Seq<(Span, Seq<char>)>,
    end: u32,
    i: int,
) -> bool {
    forall|text: Seq<char>|
        !#[trigger] is_text_between(
            files,
            gap_start(start, list, i),
            gap_end(list, end, i),
            text,
        )
}

/// Whether a text comes of a span by substitutions: they are taken in the order in which their
/// places start, each puts its text where its place was, and what stands before, between and behind
/// these places stays.
pub open spec fn comes_of_substitutions(
    files: Seq<FileView>,
    span: Span,
    substitutions: Seq<(Span, Seq<char>)>,
    text: Seq<char>,
) -> bool {
    exists|list: Seq<(Span, Seq<char>)>, order: Seq<int>, gaps: Seq<Seq<char>>|
        {
            &&& #[trigger] are_in_order_of_places(substitutions, list, order)
            &&& #[trigger] are_gaps(files, span.lo, list, span.hi, gaps)
            &&& text == woven(gaps, list)
        }
}

/// A text with substitutions made in it comes of the substitutions in the order of their places. It
/// cannot be had only where some of the text that stays cannot be had.
pub proof fn law_substitutions_leave_rest_of_text(
    files: Seq<FileView>,
    span: Span,
    substitutions: Seq<(Span, Seq<char>)>,
)
    ensures
        match substituted(files, span, substitutions) {
            Some(text) => comes_of_substitutions(files, span, substitutions, text),
            None => exists|list: Seq<(Span, Seq<char>)>, order: Seq<int>, i: int|
                {
                    &&& #[trigger] are_in_order_of_places(substitutions, list, order)
                    &&& 0 <= i <= list.len()
                    &&& #[trigger] has_no_gap(files, span.lo, list, span.hi, i)
                },
        },
{
    let list = by_start(substitutions);
    law_substitutions_go_by_start_of_place(substitutions);
    let order = choose|order: Seq<int>| #[trigger]
        are_in_order_of_places(substitutions, list, order);
    lemma_spliced(files, span.lo, list, span.hi);
    match substituted(files, span, substitutions) {
        Some(text) => {
            let gaps = choose|gaps: Seq<Seq<char>>| #[trigger]
                are_gaps(files, span.lo, list, span.hi, gaps) && text == woven(gaps, list);
            assert(are_in_order_of_places(substitutions, list, order) && are_gaps(
                files,
                span.lo,
                list,
                span.hi,
                gaps,
            ));
        },
        None => {
            let i = choose|i: int| 0 <= i <= list.len() && #[trigger]
                has_no_gap(files, span.lo, list, span.hi, i);
            assert(are_in_order_of_places(substitutions, list, order) && has_no_gap(
                files,
                span.lo,
                list,
                span.hi,
                i,
            ));
        },
    }
}

/// The name of placeholder number `n`.
pub open spec fn name_of(n: nat) -> Seq<char> {
    "p"@ + decimal(n)
}

/// The places of the expressions that placeholders stand for, each with the name of its
/// placeholder.
pub open spec fn names_in_original(placeholders: Seq<PlaceholderView>) -> Seq<(Span, Seq<char>)> {
    Seq::new(placeholders.len(), |i: int| (placeholders[i].expr.span, name_of(i as nat)))
}

/// The places where placeholders are used, each with the name of its placeholder. The first
/// placeholder has number `n`.
pub open spec fn names_in_changed(placeholders: Seq<PlaceholderView>, n: nat) -> Seq<
    (Span, Seq<char>),
>
    decreases placeholders.len(),
{
    if placeholders.len() == 0 {
        Seq::empty()
    } else {
        placeholders[0].uses.map_values(|place: Span| (place, name_of(n))) + names_in_changed(
            placeholders.skip(1),
            n + 1,
        )
    }
}

proof fn lemma_names_from_behind(placeholders: Seq<PlaceholderView>, n: nat)
    requires
        placeholders.len() > 0,
    ensures
        names_in_changed(placeholders, n) == names_in_changed(placeholders.drop_last(), n)
            + placeholders.last().uses.map_values(
            |place: Span| (place, name_of((n + placeholders.len() - 1) as nat)),
        ),
    decreases placeholders.len(),
{
    let front = placeholders.drop_last();
    if front.len() == 0 {
        assert(names_in_changed(front, n) =~= Seq::empty());
        assert(names_in_changed(placeholders.skip(1), n + 1) =~= Seq::empty());
        assert((n + placeholders.len() - 1) as nat == n);
        assert(names_in_changed(placeholders, n) =~= names_in_changed(front, n)
            + placeholders.last().uses.map_values(
            |place: Span| (place, name_of((n + placeholders.len() - 1) as nat)),
        ));
    } else {
        let rest = placeholders.skip(1);
        lemma_names_from_behind(rest, n + 1);
        assert(rest.drop_last() =~= front.skip(1));
        assert((n + 1 + rest.len() - 1) as nat == (n + placeholders.len() - 1) as nat);
        assert(names_in_changed(placeholders, n) =~= names_in_changed(front, n)
            + placeholders.last().uses.map_values(
            |place: Span| (place, name_of((n + placeholders.len() - 1) as nat)),
        ));
    }
}

proof fn lemma_names_in_changed(placeholders: Seq<PlaceholderView>)
    ensures
        replacement_substitutions(placeholders) == names_in_changed(placeholders, 0),
    decreases placeholders.len(),
{
    if placeholders.len() > 0 {
        lemma_names_in_changed(placeholders.drop_last());
        lemma_names_from_behind(placeholders, 0);
        assert(replacement_substitutions(placeholders) =~= names_in_changed(placeholders, 0));
    }
}

/// An import of each of the paths, one behind the other.
pub open spec fn import_lines(paths: Seq<Seq<char>>) -> Seq<char>
    decreases paths.len(),
{
    if paths.len() == 0 {
        Seq::empty()
    } else {
        "use "@ + paths[0] + "; "@ + import_lines(paths.skip(1))
    }
}

proof fn lemma_import_lines_from_behind(paths: Seq<Seq<char>>)
    requires
        paths.len() > 0,
    ensures
        import_lines(paths) == import_lines(paths.drop_last()) + "use "@ + paths.last() + "; "@,
    decreases paths.len(),
{
    let front = paths.drop_last();
    if front.len() == 0 {
        assert(import_lines(front) =~= Seq::empty());
        assert(import_lines(paths.skip(1)) =~= Seq::empty());
        assert(import_lines(paths) =~= import_lines(front) + "use "@ + paths.last() + "; "@);
    } else {
        lemma_import_lines_from_behind(paths.skip(1));
        assert(paths.skip(1).drop_last() =~= front.skip(1));
        assert(import_lines(paths) =~= import_lines(front) + "use "@ + paths.last() + "; "@);
    }
}

proof fn lemma_import_lines(paths: Seq<Seq<char>>)
    ensures
        imports(paths) == import_lines(paths),
    decreases paths.len(),
{
    if paths.len() > 0 {
        lemma_import_lines(paths.drop_last());
        lemma_import_lines_from_behind(paths);
    }
}

/// Whether a list of paths has what an expression names and what else is to be imported, in the
/// order of a dictionary.
pub open spec fn are_paths_to_import(
    paths: Seq<Seq<char>>,
    expr: Expr,
    others: Set<Seq<char>>,
) -> bool {
    &&& is_dictionary_of(paths, paths.to_set())
    &&& forall|text: Seq<char>| #[trigger]
        paths.contains(text) <==> others.contains(text) || is_named_in(expr, text)
}

/// Whether an expression names a path that an import can name.
pub open spec fn is_named_in(expr: Expr, text: Seq<char>) -> bool {
    exists|route: Seq<int>| #[trigger] names_import(expr.children@, route, text)
}

/// The declarations of placeholders: the name of each and its type.
pub open spec fn typed_names(placeholders: Seq<PlaceholderView>) -> Seq<Seq<char>> {
    Seq::new(
        placeholders.len(),
        |i: int| "p"@ + decimal(i as nat) + ": "@ + placeholders[i].expr.ty.text@,
    )
}

/// Whether a rule reads like this: it imports paths, declares generic parameters and placeholders,
/// and says what is searched for and what replaces it.
pub open spec fn reads(
    text: Seq<char>,
    paths: Seq<Seq<char>>,
    generics: (Seq<char>, Seq<char>),
    placeholders: Seq<PlaceholderView>,
    search: Seq<char>,
    replace: Seq<char>,
) -> bool {
    text == import_lines(paths) + "fn r1"@ + generics.0 + "("@ + separated(
        typed_names(placeholders),
        ", "@,
    ) + ")"@ + generics.1 + " {replace!("@ + search + " => "@ + replace + ");}"@
}

/// A rule has all its parts, each in its place: the imports that the two versions of the code need,
/// the generic parameters that its placeholders bring in, each placeholder with its type, the
/// original code with the names of the placeholders where these were found, and the changed code
/// with the same names wherever the placeholders are used. It cannot be written only where one of
/// the parts cannot be had.
pub proof fn law_rule_has_all_its_parts(
    files: Seq<FileView>,
    placeholders: Seq<PlaceholderView>,
    expr: Expr,
    item: Item,
    right_paths: Set<Seq<char>>,
    other_files: Seq<FileView>,
    place: Span,
)
    requires
        right_paths.finite(),
    ensures
        match rule(files, placeholders, expr, item, right_paths, other_files, place) {
            Ok(text) => exists|
                paths: Seq<Seq<char>>,
                generics: (Seq<char>, Seq<char>),
                search: Seq<char>,
                replace: Seq<char>,
            |
                {
                    &&& #[trigger] reads(text, paths, generics, placeholders, search, replace)
                    &&& are_paths_to_import(paths, expr, right_paths)
                    &&& rule_generics(files, placeholders, item) == Ok::<
                        (Seq<char>, Seq<char>),
                        RuleError,
                    >(generics)
                    &&& comes_of_substitutions(
                        files,
                        expr.span,
                        names_in_original(placeholders),
                        search,
                    )
                    &&& comes_of_substitutions(
                        other_files,
                        place,
                        names_in_changed(placeholders, 0),
                        replace,
                    )
                },
            Err(e) => {
                ||| rule_generics(files, placeholders, item) == Err::<
                    (Seq<char>, Seq<char>),
                    RuleError,
                >(e)
                ||| {
                    &&& rule_generics(files, placeholders, item) is Ok
                    &&& e is NoSnippet
                    &&& substituted(files, expr.span, names_in_original(placeholders)) is None
                        || substituted(
                        other_files,
                        place,
                        names_in_changed(placeholders, 0),
                    ) is None
                }
            },
        },
{
    lemma_names_in_changed(placeholders);
    assert(search_substitutions(placeholders) =~= names_in_original(placeholders));
    law_substitutions_leave_rest_of_text(files, expr.span, names_in_original(placeholders));
    law_substitutions_leave_rest_of_text(other_files, place, names_in_changed(placeholders, 0));
    if let Ok(text) = rule(files, placeholders, expr, item, right_paths, other_files, place) {
        let named = referenced_in(expr.children@);
        let set = named.union(right_paths);
        let paths = listing(set);
        let generics = rule_generics(files, placeholders, item)->Ok_0;
        let search = substituted(files, expr.span, names_in_original(placeholders))->0;
        let replace = substituted(other_files, place, names_in_changed(placeholders, 0))->0;
        law_paths_are_finite(expr.children@);
        law_imports_are_in_order(set);
        law_listing_is_dictionary(paths, set);
        assert forall|t: Seq<char>| #[trigger] paths.contains(t) <==> right_paths.contains(t)
            || is_named_in(expr, t) by {
            law_imports_are_the_named_paths(expr.children@, t);
            assert(paths.to_set().contains(t) <==> paths.contains(t));
            assert(set.contains(t) <==> named.contains(t) || right_paths.contains(t));
        }
        lemma_import_lines(paths);
        assert(declarations(placeholders) =~= typed_names(placeholders));
        law_joined_texts_are_separated(typed_names(placeholders), ", "@);
        assert(reads(text, paths, generics, placeholders, search, replace));
    }
}

} // verus!
