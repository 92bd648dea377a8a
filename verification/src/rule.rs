use crate::codemap::{snippet_in, CodeMap, FileView};
use crate::error::RuleError;
use crate::hir::{Expr, Item};
use crate::matcher::{placeholders_view, Placeholder, PlaceholderView};
use crate::order::{arranged, lemma_order_exists, sort_by_keys};
use crate::paths::{referenced_in, ReferencedPathsFinder};
use crate::span::{Span, SyntaxContext};
use crate::text::{
    append_decimal, decimal, insert_text, is_ascending, is_listing, join, joined,
    lemma_listing_is_unique, listing, texts,
};
use vstd::prelude::*;
use vstd::string::*;

verus! {

/// The text between two positions, whichever comes first.
pub open spec fn text_between(files: Seq<FileView>, a: u32, b: u32) -> Option<Seq<char>> {
    snippet_in(files, Span::between(a, b).lo as int, Span::between(a, b).hi as int)
}

/// The text from `start` to `end` in which each span of `substitutions`, from the first to the
/// last, gives way to the text that comes with it.
pub open spec fn spliced(
    files: Seq<FileView>,
    start: u32,
    substitutions: Seq<(Span, Seq<char>)>,
    end: u32,
) -> Option<Seq<char>>
    decreases substitutions.len(),
{
    if substitutions.len() == 0 {
        text_between(files, start, end)
    } else {
        let (span, substitution) = substitutions[0];
        match (
            text_between(files, start, span.lo),
            spliced(files, span.hi, substitutions.skip(1), end),
        ) {
            (Some(before), Some(behind)) => Some(before + substitution + behind),
            _ => None,
        }
    }
}

pub open spec fn start_keys(substitutions: Seq<(Span, Seq<char>)>) -> Seq<u32> {
    Seq::new(substitutions.len(), |i: int| substitutions[i].0.lo)
}

/// Substitutions in the order in which their spans start.
pub open spec fn by_start(substitutions: Seq<(Span, Seq<char>)>) -> Seq<(Span, Seq<char>)> {
    arranged(substitutions, start_keys(substitutions))
}

/// The text of `span` with the substitutions made in it.
pub open spec fn substituted(
    files: Seq<FileView>,
    span: Span,
    substitutions: Seq<(Span, Seq<char>)>,
) -> Option<Seq<char>> {
    spliced(files, span.lo, by_start(substitutions), span.hi)
}

pub open spec fn substitutions_view(substitutions: Seq<(Span, String)>) -> Seq<
    (Span, Seq<char>),
> {
    Seq::new(substitutions.len(), |i: int| (substitutions[i].0, substitutions[i].1@))
}

/// The text of `span` with the substitutions made in it, unless some of the text that stays cannot
/// be had. The substitutions are put in the order in which their spans start.
pub fn try_substitute_placeholders(
    codemap: &CodeMap,
    span: &Span,
    substitutions: &mut Vec<(Span, String)>,
) -> (r: Option<String>)
    ensures
        r is Some <==> substituted(
            codemap@,
            *span,
            substitutions_view(old(substitutions)@),
        ) is Some,
        r matches Some(s) ==> s@ == substituted(
            codemap@,
            *span,
            substitutions_view(old(substitutions)@),
        )->0,
        final(substitutions)@ == arranged(
            old(substitutions)@,
            start_keys(substitutions_view(old(substitutions)@)),
        ),
{
    let ghost views = substitutions_view(substitutions@);
    let ghost sorted = by_start(views);
    let mut keys: Vec<u32> = Vec::new();
    let mut k: usize = 0;
    while k < substitutions.len()
        invariant
            k <= substitutions.len(),
            *substitutions == *old(substitutions),
            views == substitutions_view(substitutions@),
            keys@ == start_keys(views).take(k as int),
        decreases substitutions.len() - k,
    {
        keys.push(substitutions[k].0.lo);
        assert(keys@ =~= start_keys(views).take(k + 1));
        k = k + 1;
    }
    assert(keys@ =~= start_keys(views));
    sort_by_keys(substitutions, &keys);
    proof {
        lemma_order_exists(start_keys(views));
        assert(substitutions_view(substitutions@) =~= sorted);
    }
    splice(codemap, span, substitutions)
}

fn splice(codemap: &CodeMap, span: &Span, substitutions: &Vec<(Span, String)>) -> (r: Option<
    String,
>)
    ensures
        r is Some <==> spliced(
            codemap@,
            span.lo,
            substitutions_view(substitutions@),
            span.hi,
        ) is Some,
        r matches Some(s) ==> s@ == spliced(
            codemap@,
            span.lo,
            substitutions_view(substitutions@),
            span.hi,
        )->0,
{
    let ghost views = substitutions_view(substitutions@);
    let mut result = String::new();
    let mut start: u32 = span.lo;
    let mut i: usize = 0;
    assert(views.skip(0) =~= views);
    assert(spliced(codemap@, span.lo, views, span.hi) matches Some(s) ==> s =~= result@ + s);
    while i < substitutions.len()
        invariant
            i <= substitutions.len(),
            views == substitutions_view(substitutions@),
            spliced(codemap@, span.lo, views, span.hi) is Some <==> spliced(
                codemap@,
                start,
                views.skip(i as int),
                span.hi,
            ) is Some,
            spliced(codemap@, span.lo, views, span.hi) matches Some(s) ==> s == result@
                + spliced(codemap@, start, views.skip(i as int), span.hi)->0,
        decreases substitutions.len() - i,
    {
        let entry = &substitutions[i];
        let ghost before = result@;
        proof {
            assert(views.skip(i as int)[0] == (entry.0, entry.1@));
            assert(views.skip(i as int).skip(1) =~= views.skip(i + 1));
        }
        let gap = Span::new(start, entry.0.lo, SyntaxContext::Root);
        match codemap.span_to_snippet(&gap) {
            None => {
                return None;
            },
            Some(snippet) => {
                result.append(snippet.as_str());
                result.append(entry.1.as_str());
                start = entry.0.hi;
                proof {
                    let behind = spliced(codemap@, start, views.skip(i + 1), span.hi);
                    if let Some(rest) = behind {
                        assert(before + (snippet@ + entry.1@ + rest) =~= result@ + rest);
                    }
                }
            },
        }
        i = i + 1;
    }
    assert(views.skip(i as int) =~= Seq::empty());
    let gap = Span::new(start, span.hi, SyntaxContext::Root);
    match codemap.span_to_snippet(&gap) {
        None => None,
        Some(snippet) => {
            result.append(snippet.as_str());
            Some(result)
        },
    }
}

/// The text of `span` with the substitutions made in it. The substitutions are put in the order in
/// which their spans start.
pub fn substitute_placeholders(
    codemap: &CodeMap,
    span: &Span,
    substitutions: &mut Vec<(Span, String)>,
) -> (r: String)
    requires
        substituted(codemap@, *span, substitutions_view(old(substitutions)@)) is Some,
    ensures
        r@ == substituted(codemap@, *span, substitutions_view(old(substitutions)@))->0,
        final(substitutions)@ == arranged(
            old(substitutions)@,
            start_keys(substitutions_view(old(substitutions)@)),
        ),
{
    try_substitute_placeholders(codemap, span, substitutions).unwrap()
}

/// The name of a placeholder.
pub open spec fn placeholder_name(number: nat) -> Seq<char> {
    "p"@ + decimal(number)
}

fn name_placeholder(number: usize) -> (r: String)
    ensures
        r@ == placeholder_name(number as nat),
{
    let mut name = String::new();
    name.append("p");
    append_decimal(&mut name, number);
    assert(name@ =~= placeholder_name(number as nat));
    name
}

/// Whether a type parameter occurs in the type of a placeholder.
pub open spec fn uses_type_params(placeholders: Seq<PlaceholderView>) -> bool {
    exists|i: int|
        0 <= i < placeholders.len() && (#[trigger] placeholders[i]).expr.ty.has_params
}

/// The texts of spans, if they all can be had.
pub open spec fn snippets(files: Seq<FileView>, spans: Seq<Span>) -> Option<Seq<Seq<char>>>
    decreases spans.len(),
{
    if spans.len() == 0 {
        Some(Seq::empty())
    } else {
        match (
            snippets(files, spans.drop_last()),
            snippet_in(files, spans.last().lo as int, spans.last().hi as int),
        ) {
            (Some(before), Some(text)) => Some(before.push(text)),
            _ => None,
        }
    }
}

/// The where clause with the given predicates, with a space before it.
pub open spec fn where_clause(predicates: Seq<Seq<char>>) -> Seq<char> {
    if predicates.len() == 0 {
        Seq::empty()
    } else {
        " where "@ + joined(predicates, ", "@)
    }
}

/// The generic parameters of a rule and its where clause: none if no placeholder needs them, and
/// else those of the item around the changed code.
pub open spec fn rule_generics(
    files: Seq<FileView>,
    placeholders: Seq<PlaceholderView>,
    item: Item,
) -> Result<(Seq<char>, Seq<char>), RuleError> {
    if !uses_type_params(placeholders) {
        Ok((Seq::empty(), Seq::empty()))
    } else {
        match item.generics {
            None => Err(RuleError::NoGenerics),
            Some(generics) => match (
                snippet_in(files, generics.span.lo as int, generics.span.hi as int),
                snippets(files, generics.where_predicates@),
            ) {
                (Some(text), Some(predicates)) => Ok((text, where_clause(predicates))),
                _ => Err(RuleError::NoSnippet),
            },
        }
    }
}

/// The declarations of the placeholders, each with its type.
pub open spec fn declarations(placeholders: Seq<PlaceholderView>) -> Seq<Seq<char>> {
    Seq::new(
        placeholders.len(),
        |i: int| placeholder_name(i as nat) + ": "@ + placeholders[i].expr.ty.text@,
    )
}

/// An import of each of the paths.
pub open spec fn imports(paths: Seq<Seq<char>>) -> Seq<char>
    decreases paths.len(),
{
    if paths.len() == 0 {
        Seq::empty()
    } else {
        imports(paths.drop_last()) + "use "@ + paths.last() + "; "@
    }
}

/// What the placeholders stand for in the original code.
pub open spec fn search_substitutions(placeholders: Seq<PlaceholderView>) -> Seq<
    (Span, Seq<char>),
> {
    Seq::new(
        placeholders.len(),
        |i: int| (placeholders[i].expr.span, placeholder_name(i as nat)),
    )
}

/// What the placeholders stand for in the changed code.
pub open spec fn replacement_substitutions(placeholders: Seq<PlaceholderView>) -> Seq<
    (Span, Seq<char>),
>
    decreases placeholders.len(),
{
    if placeholders.len() == 0 {
        Seq::empty()
    } else {
        let n = (placeholders.len() - 1) as nat;
        replacement_substitutions(placeholders.drop_last()) + Seq::new(
            placeholders.last().uses.len(),
            |j: int| (placeholders.last().uses[j], placeholder_name(n)),
        )
    }
}

/// The text of a rule.
pub open spec fn rule_text(
    paths: Seq<Seq<char>>,
    generics: Seq<char>,
    declarations: Seq<Seq<char>>,
    where_text: Seq<char>,
    search: Seq<char>,
    replace: Seq<char>,
) -> Seq<char> {
    imports(paths) + "fn r1"@ + generics + "("@ + joined(declarations, ", "@) + ")"@ + where_text
        + " {replace!("@ + search + " => "@ + replace + ");}"@
}

/// The rule that turns `expr` into the code at `replacement_span` of the changed file.
pub open spec fn rule(
    files: Seq<FileView>,
    placeholders: Seq<PlaceholderView>,
    expr: Expr,
    item: Item,
    right_paths: Set<Seq<char>>,
    other_files: Seq<FileView>,
    replacement_span: Span,
) -> Result<Seq<char>, RuleError> {
    match rule_generics(files, placeholders, item) {
        Err(e) => Err(e),
        Ok((generics, where_text)) => match (
            substituted(files, expr.span, search_substitutions(placeholders)),
            substituted(
                other_files,
                replacement_span,
                replacement_substitutions(placeholders),
            ),
        ) {
            (Some(search), Some(replace)) => Ok(
                rule_text(
                    listing(referenced_in(expr.children@).union(right_paths)),
                    generics,
                    declarations(placeholders),
                    where_text,
                    search,
                    replace,
                ),
            ),
            _ => Err(RuleError::NoSnippet),
        },
    }
}

/// Whether a type parameter occurs in the type of a placeholder.
pub fn any_type_params(placeholders: &Vec<Placeholder>) -> (r: bool)
    ensures
        r == uses_type_params(placeholders_view(placeholders@)),
{
    let ghost views = placeholders_view(placeholders@);
    let mut i: usize = 0;
    while i < placeholders.len()
        invariant
            i <= placeholders.len(),
            views == placeholders_view(placeholders@),
            forall|j: int| 0 <= j < i ==> !(#[trigger] views[j]).expr.ty.has_params,
        decreases placeholders.len() - i,
    {
        assert(views[i as int] == placeholders@[i as int]@);
        if placeholders[i].expr.ty.has_params {
            return true;
        }
        i = i + 1;
    }
    false
}

fn all_snippets(codemap: &CodeMap, spans: &Vec<Span>) -> (r: Option<Vec<String>>)
    ensures
        r is Some <==> snippets(codemap@, spans@) is Some,
        r matches Some(v) ==> texts(v@) == snippets(codemap@, spans@)->0,
{
    let mut result: Vec<String> = Vec::new();
    let mut i: usize = 0;
    assert(spans@.take(0) =~= Seq::empty());
    assert(texts(result@) =~= Seq::empty());
    while i < spans.len()
        invariant
            i <= spans.len(),
            snippets(codemap@, spans@.take(i as int)) == Some(texts(result@)),
        decreases spans.len() - i,
    {
        assert(spans@.take(i + 1).drop_last() =~= spans@.take(i as int));
        match codemap.span_to_snippet(&spans[i]) {
            None => {
                proof {
                    lemma_snippets_of_part(codemap@, spans@, i + 1);
                }
                return None;
            },
            Some(snippet) => {
                let ghost before = texts(result@);
                let ghost text = snippet@;
                result.push(snippet);
                assert(texts(result@) =~= before.push(text));
            },
        }
        i = i + 1;
    }
    assert(spans@.take(i as int) =~= spans@);
    Some(result)
}

proof fn lemma_snippets_of_part(files: Seq<FileView>, spans: Seq<Span>, n: int)
    requires
        0 <= n <= spans.len(),
        snippets(files, spans.take(n)) is None,
    ensures
        snippets(files, spans) is None,
    decreases spans.len(),
{
    if n < spans.len() {
        assert(spans.drop_last().take(n) =~= spans.take(n));
        lemma_snippets_of_part(files, spans.drop_last(), n);
    } else {
        assert(spans.take(n) =~= spans);
    }
}

fn find_generics(codemap: &CodeMap, placeholders: &Vec<Placeholder>, item: &Item) -> (r: Result<
    (String, String),
    RuleError,
>)
    requires
        uses_type_params(placeholders_view(placeholders@)) ==> item.generics is Some,
    ensures
        match rule_generics(codemap@, placeholders_view(placeholders@), *item) {
            Ok((generics, where_text)) => r is Ok && r->Ok_0.0@ == generics && r->Ok_0.1@
                == where_text,
            Err(e) => r is Err && r->Err_0 == e,
        },
{
    let generics = match &item.generics {
        None => {
            return Ok((String::new(), String::new()));
        },
        Some(generics) => generics,
    };
    if !any_type_params(placeholders) {
        return Ok((String::new(), String::new()));
    }
    let generics_string = match codemap.span_to_snippet(&generics.span) {
        None => {
            return Err(RuleError::NoSnippet);
        },
        Some(text) => text,
    };
    match all_snippets(codemap, &generics.where_predicates) {
        None => Err(RuleError::NoSnippet),
        Some(predicates) => {
            let mut where_string = String::new();
            if predicates.len() > 0 {
                where_string.append(" where ");
                let list = join(&predicates, ", ");
                where_string.append(list.as_str());
            }
            assert(where_string@ =~= where_clause(texts(predicates@)));
            Ok((generics_string, where_string))
        },
    }
}

fn declare(placeholders: &Vec<Placeholder>) -> (r: String)
    ensures
        r@ == joined(declarations(placeholders_view(placeholders@)), ", "@),
{
    let ghost views = placeholders_view(placeholders@);
    let mut parts: Vec<String> = Vec::new();
    let mut i: usize = 0;
    while i < placeholders.len()
        invariant
            i <= placeholders.len(),
            views == placeholders_view(placeholders@),
            texts(parts@) == declarations(views).take(i as int),
        decreases placeholders.len() - i,
    {
        let ghost before = texts(parts@);
        let mut part = name_placeholder(i);
        part.append(": ");
        part.append(placeholders[i].expr.ty.text.as_str());
        let ghost text = part@;
        parts.push(part);
        proof {
            assert(views[i as int] == placeholders@[i as int]@);
            assert(text == declarations(views)[i as int]);
            assert(texts(parts@) =~= before.push(text));
            assert(texts(parts@) =~= declarations(views).take(i + 1));
        }
        i = i + 1;
    }
    assert(texts(parts@) =~= declarations(views));
    join(&parts, ", ")
}

fn insert_all(list: &mut Vec<String>, paths: &Vec<String>)
    requires
        is_ascending(texts(old(list)@)),
    ensures
        is_ascending(texts(final(list)@)),
        texts(final(list)@).to_set() == texts(old(list)@).to_set().union(
            texts(paths@).to_set(),
        ),
{
    let ghost before = texts(list@).to_set();
    let ghost all = texts(paths@);
    let mut i: usize = 0;
    assert(before.union(all.take(0).to_set()) =~= before);
    while i < paths.len()
        invariant
            i <= paths.len(),
            all == texts(paths@),
            is_ascending(texts(list@)),
            texts(list@).to_set() == before.union(all.take(i as int).to_set()),
        decreases paths.len() - i,
    {
        insert_text(list, &paths[i]);
        proof {
            assert(all[i as int] == paths@[i as int]@);
            assert(all.take(i + 1) =~= all.take(i as int).push(all[i as int]));
            all.take(i as int).lemma_push_to_set_commute(all[i as int]);
            assert(texts(list@).to_set() =~= before.union(all.take(i + 1).to_set()));
        }
        i = i + 1;
    }
    assert(all.take(i as int) =~= all);
}

fn write_imports(left_paths: &Vec<String>, right_paths: &Vec<String>) -> (r: String)
    ensures
        r@ == imports(
            listing(texts(left_paths@).to_set().union(texts(right_paths@).to_set())),
        ),
{
    let mut paths: Vec<String> = Vec::new();
    assert(texts(paths@).to_set() =~= Set::empty());
    insert_all(&mut paths, left_paths);
    insert_all(&mut paths, right_paths);
    let ghost all = texts(paths@);
    proof {
        let set = texts(left_paths@).to_set().union(texts(right_paths@).to_set());
        assert(all.to_set() =~= set);
        assert(is_listing(all, set));
        lemma_listing_is_unique(all, listing(set));
        assert(all.take(0) =~= Seq::empty());
    }
    let mut use_statements = String::new();
    let mut i: usize = 0;
    while i < paths.len()
        invariant
            i <= paths.len(),
            all == texts(paths@),
            use_statements@ == imports(all.take(i as int)),
        decreases paths.len() - i,
    {
        assert(all.take(i + 1).drop_last() =~= all.take(i as int));
        use_statements.append("use ");
        use_statements.append(paths[i].as_str());
        use_statements.append("; ");
        i = i + 1;
    }
    assert(all.take(i as int) =~= all);
    use_statements
}

fn list_search_substitutions(placeholders: &Vec<Placeholder>) -> (r: Vec<(Span, String)>)
    ensures
        substitutions_view(r@) == search_substitutions(placeholders_view(placeholders@)),
{
    let ghost views = placeholders_view(placeholders@);
    let mut result: Vec<(Span, String)> = Vec::new();
    let mut i: usize = 0;
    while i < placeholders.len()
        invariant
            i <= placeholders.len(),
            views == placeholders_view(placeholders@),
            substitutions_view(result@) == search_substitutions(views).take(i as int),
        decreases placeholders.len() - i,
    {
        let ghost before = substitutions_view(result@);
        result.push((placeholders[i].expr.span.clone(), name_placeholder(i)));
        proof {
            assert(views[i as int] == placeholders@[i as int]@);
            assert(substitutions_view(result@) =~= before.push(
                search_substitutions(views)[i as int],
            ));
            assert(substitutions_view(result@) =~= search_substitutions(views).take(i + 1));
        }
        i = i + 1;
    }
    assert(substitutions_view(result@) =~= search_substitutions(views));
    result
}

fn list_replacement_substitutions(placeholders: &Vec<Placeholder>) -> (r: Vec<(Span, String)>)
    ensures
        substitutions_view(r@) == replacement_substitutions(placeholders_view(placeholders@)),
{
    let ghost views = placeholders_view(placeholders@);
    let mut result: Vec<(Span, String)> = Vec::new();
    let mut i: usize = 0;
    assert(views.take(0) =~= Seq::empty());
    assert(substitutions_view(result@) =~= Seq::empty());
    while i < placeholders.len()
        invariant
            i <= placeholders.len(),
            views == placeholders_view(placeholders@),
            substitutions_view(result@) == replacement_substitutions(views.take(i as int)),
        decreases placeholders.len() - i,
    {
        let uses = &placeholders[i].uses;
        let ghost before = substitutions_view(result@);
        let ghost here = Seq::new(
            uses@.len(),
            |j: int| (uses@[j], placeholder_name(i as nat)),
        );
        assert(before + here.take(0) =~= before);
        let mut j: usize = 0;
        while j < uses.len()
            invariant
                j <= uses.len(),
                here == Seq::new(uses@.len(), |j: int| (uses@[j], placeholder_name(i as nat))),
                substitutions_view(result@) == before + here.take(j as int),
            decreases uses.len() - j,
        {
            let ghost so_far = substitutions_view(result@);
            result.push((uses[j].clone(), name_placeholder(i)));
            proof {
                assert(substitutions_view(result@) =~= so_far.push(here[j as int]));
                assert(substitutions_view(result@) =~= before + here.take(j + 1));
            }
            j = j + 1;
        }
        proof {
            assert(here.take(j as int) =~= here);
            let part = views.take(i + 1);
            assert(part.drop_last() =~= views.take(i as int));
            assert(part.last() == placeholders@[i as int]@);
            assert(here =~= Seq::new(
                part.last().uses.len(),
                |j: int| (part.last().uses[j], placeholder_name((part.len() - 1) as nat)),
            ));
        }
        i = i + 1;
    }
    assert(views.take(i as int) =~= views);
    result
}

/// The rule that turns `expr` into the code at `replacement_span` of the changed file. It has the
/// imports that the code on either side needs.
pub fn build_rule(
    codemap: &CodeMap,
    placeholders: &Vec<Placeholder>,
    expr: &Expr,
    item: &Item,
    right_paths: &Vec<String>,
    other_codemap: &CodeMap,
    replacement_span: &Span,
) -> (r: Result<String, RuleError>)
    requires
        uses_type_params(placeholders_view(placeholders@)) ==> item.generics is Some,
    ensures
        match rule(
            codemap@,
            placeholders_view(placeholders@),
            *expr,
            *item,
            texts(right_paths@).to_set(),
            other_codemap@,
            *replacement_span,
        ) {
            Ok(text) => r is Ok && r->Ok_0@ == text,
            Err(e) => r is Err && r->Err_0 == e,
        },
{
    let (generics_string, where_string) = match find_generics(codemap, placeholders, item) {
        Err(e) => {
            return Err(e);
        },
        Ok(pair) => pair,
    };
    let arg_decls = declare(placeholders);
    let left_paths = ReferencedPathsFinder::paths_in_expr(expr);
    let use_statements = write_imports(&left_paths, right_paths);
    let mut search_subs = list_search_substitutions(placeholders);
    let search = match try_substitute_placeholders(codemap, &expr.span, &mut search_subs) {
        None => {
            return Err(RuleError::NoSnippet);
        },
        Some(search) => search,
    };
    let mut replacement_subs = list_replacement_substitutions(placeholders);
    let replace = match try_substitute_placeholders(
        other_codemap,
        replacement_span,
        &mut replacement_subs,
    ) {
        None => {
            return Err(RuleError::NoSnippet);
        },
        Some(replace) => replace,
    };
    let mut rule = use_statements;
    rule.append("fn r1");
    rule.append(generics_string.as_str());
    rule.append("(");
    rule.append(arg_decls.as_str());
    rule.append(")");
    rule.append(where_string.as_str());
    rule.append(" {replace!(");
    rule.append(search.as_str());
    rule.append(" => ");
    rule.append(replace.as_str());
    rule.append(");}");
    Ok(rule)
}

} // verus!
