use crate::codemap::{snippet_in, CodeMap, FileView};
use crate::error::RuleError;
use crate::hir::{Expr, Node};
use crate::token::{
    is_lexer, is_lexing_of, stream_hash, token_stream_hash, tokenize, Lexing, TokenStream,
};
use std::collections::hash_map::DefaultHasher;
use std::collections::HashMap;
use std::hash::Hasher;
use vstd::bytes::*;
use vstd::prelude::*;
use vstd::std_specs::hash::*;

verus! {

/// An expression that may become a placeholder, with the candidates within it. Only candidates with
/// the same hash are compared.
pub struct PlaceholderCandidate<T> {
    pub hash: u64,
    pub children: Vec<PlaceholderCandidate<T>>,
    pub data: T,
}

/// What a candidate is, whatever holds its children.
pub struct CandidateView<T> {
    pub hash: u64,
    pub children: Seq<CandidateView<T>>,
    pub data: T,
}

pub open spec fn candidate_view<T>(candidate: PlaceholderCandidate<T>) -> CandidateView<T>
    decreases candidate,
{
    CandidateView {
        hash: candidate.hash,
        children: candidates_view(candidate.children@),
        data: candidate.data,
    }
}

pub open spec fn candidates_view<T>(candidates: Seq<PlaceholderCandidate<T>>) -> Seq<
    CandidateView<T>,
>
    decreases candidates,
{
    if candidates.len() == 0 {
        Seq::empty()
    } else {
        candidates_view(candidates.drop_last()).push(candidate_view(candidates.last()))
    }
}

pub proof fn lemma_candidates_view<T>(candidates: Seq<PlaceholderCandidate<T>>)
    ensures
        candidates_view(candidates).len() == candidates.len(),
        forall|i: int|
            0 <= i < candidates.len() ==> #[trigger] candidates_view(candidates)[i]
                == candidate_view(candidates[i]),
    decreases candidates.len(),
{
    if candidates.len() > 0 {
        lemma_candidates_view(candidates.drop_last());
    }
}

proof fn lemma_candidates_view_add<T>(
    a: Seq<PlaceholderCandidate<T>>,
    b: Seq<PlaceholderCandidate<T>>,
)
    ensures
        candidates_view(a + b) == candidates_view(a) + candidates_view(b),
{
    lemma_candidates_view(a);
    lemma_candidates_view(b);
    lemma_candidates_view(a + b);
    assert(candidates_view(a + b) =~= candidates_view(a) + candidates_view(b));
}

/// What can be written into a hasher.
pub trait Hashable {
    /// What hashing the value writes.
    spec fn writes(&self) -> Seq<Seq<u8>>;

    /// Writes the value into the hasher.
    fn hash(&self, hasher: &mut DefaultHasher)
        ensures
            final(hasher)@ == old(hasher)@ + self.writes(),
    ;
}

impl Hashable for u64 {
    open spec fn writes(&self) -> Seq<Seq<u8>> {
        seq![spec_u64_to_le_bytes(*self)]
    }

    fn hash(&self, hasher: &mut DefaultHasher) {
        let bytes: Vec<u8> = u64_to_le_bytes(*self);
        hasher.write(bytes.as_slice());
        assert(hasher@ =~= old(hasher)@ + self.writes());
    }
}

impl<T> Hashable for PlaceholderCandidate<T> {
    open spec fn writes(&self) -> Seq<Seq<u8>> {
        self.hash.writes()
    }

    /// Writes the hash of the candidate into the hasher.
    fn hash(&self, hasher: &mut DefaultHasher) {
        self.hash.hash(hasher);
    }
}

/// What hashing each of the values writes.
pub open spec fn writes_of_all<T: Hashable>(values: Seq<T>) -> Seq<Seq<u8>>
    decreases values.len(),
{
    if values.len() == 0 {
        Seq::empty()
    } else {
        writes_of_all(values.drop_last()) + values.last().writes()
    }
}

impl<T: Hashable> Hashable for Vec<T> {
    /// How many values there are, and each of them.
    open spec fn writes(&self) -> Seq<Seq<u8>> {
        (self@.len() as u64).writes() + writes_of_all(self@)
    }

    fn hash(&self, hasher: &mut DefaultHasher) {
        let count: u64 = self.len() as u64;
        count.hash(hasher);
        let ghost counted = hasher@;
        let mut i: usize = 0;
        assert(self@.take(0) =~= Seq::empty());
        assert(counted + Seq::<Seq<u8>>::empty() =~= counted);
        while i < self.len()
            invariant
                i <= self.len(),
                hasher@ == counted + writes_of_all(self@.take(i as int)),
            decreases self.len() - i,
        {
            self[i].hash(hasher);
            proof {
                assert(self@.take(i + 1).drop_last() =~= self@.take(i as int));
                assert(hasher@ =~= counted + writes_of_all(self@.take(i + 1)));
            }
            i = i + 1;
        }
        proof {
            assert(self@.take(i as int) =~= self@);
            assert(hasher@ =~= old(hasher)@ + self.writes());
        }
    }
}

/// The hash of a value.
pub fn default_hash<T: Hashable>(value: &T) -> (r: u64)
    ensures
        r == DefaultHasher::spec_finish(value.writes()),
{
    let mut hasher = DefaultHasher::new();
    value.hash(&mut hasher);
    assert(hasher@ =~= value.writes());
    hasher.finish()
}

/// What hashing a list of candidates writes into a hasher: how many there are, and the hash of
/// each.
pub open spec fn candidate_writes<T>(candidates: Seq<CandidateView<T>>) -> Seq<Seq<u8>> {
    seq![spec_u64_to_le_bytes(candidates.len() as u64)] + Seq::new(
        candidates.len(),
        |i: int| spec_u64_to_le_bytes(candidates[i].hash),
    )
}

/// The hash of a list of candidates.
pub open spec fn candidates_hash<T>(candidates: Seq<CandidateView<T>>) -> u64 {
    DefaultHasher::spec_finish(candidate_writes(candidates))
}

proof fn lemma_candidate_writes<T>(candidates: Seq<PlaceholderCandidate<T>>)
    ensures
        writes_of_all(candidates) == Seq::new(
            candidates.len(),
            |i: int| spec_u64_to_le_bytes(candidates_view(candidates)[i].hash),
        ),
    decreases candidates.len(),
{
    lemma_candidates_view(candidates);
    if candidates.len() > 0 {
        let before = candidates.drop_last();
        lemma_candidate_writes(before);
        lemma_candidates_view(before);
        assert(writes_of_all(candidates) =~= Seq::new(
            candidates.len(),
            |i: int| spec_u64_to_le_bytes(candidates_view(candidates)[i].hash),
        ));
    }
}

impl<T> PlaceholderCandidate<T> {
    pub fn new(data: T) -> (r: PlaceholderCandidate<T>)
        ensures
            r.hash == 0,
            r.children@.len() == 0,
            r.data == data,
    {
        PlaceholderCandidate { hash: 0, data, children: Vec::new() }
    }
}

/// What a candidate keeps of each expression.
pub type DataOf<T> = spec_fn(Expr) -> Result<T, RuleError>;

/// The candidates among `nodes` and what is within them: each outermost expression, with the
/// candidates within it. `data` is what a candidate keeps of its expression.
pub open spec fn candidates_in<T>(
    nodes: Seq<Node>,
    codemap: Seq<FileView>,
    lex: Lexing,
    data: DataOf<T>,
) -> Result<Seq<CandidateView<T>>, RuleError>
    decreases nodes,
{
    if nodes.len() == 0 {
        Ok(Seq::empty())
    } else {
        match candidates_in(nodes.drop_last(), codemap, lex, data) {
            Err(e) => Err(e),
            Ok(before) => match candidates_at(nodes.last(), codemap, lex, data) {
                Err(e) => Err(e),
                Ok(here) => Ok(before + here),
            },
        }
    }
}

pub open spec fn candidates_at<T>(
    node: Node,
    codemap: Seq<FileView>,
    lex: Lexing,
    data: DataOf<T>,
) -> Result<Seq<CandidateView<T>>, RuleError>
    decreases node,
{
    match node {
        Node::Item(item) => candidates_in(item.children@, codemap, lex, data),
        Node::Body(body) => candidates_in(body.children@, codemap, lex, data),
        Node::Path(path) => candidates_in(path.children@, codemap, lex, data),
        Node::Expr(expr) => match candidate_of(expr, codemap, lex, data) {
            Err(e) => Err(e),
            Ok(candidate) => Ok(seq![candidate]),
        },
    }
}

/// The candidate that an expression is. Its hash is that of its tokens if there are no
/// candidates within it, and else that of those candidates.
pub open spec fn candidate_of<T>(
    expr: Expr,
    codemap: Seq<FileView>,
    lex: Lexing,
    data: DataOf<T>,
) -> Result<CandidateView<T>, RuleError>
    decreases expr,
{
    match data(expr) {
        Err(e) => Err(e),
        Ok(kept) => match candidates_in(expr.operands(), codemap, lex, data) {
            Err(e) => Err(e),
            Ok(children) => if children.len() > 0 {
                Ok(CandidateView { hash: candidates_hash(children), children, data: kept })
            } else {
                match snippet_in(codemap, expr.span.lo as int, expr.span.hi as int) {
                    None => Err(RuleError::NoSnippet),
                    Some(text) => Ok(
                        CandidateView { hash: stream_hash(lex(text)), children, data: kept },
                    ),
                }
            },
        },
    }
}

/// The candidates within an expression, which itself is none.
pub open spec fn candidates_within<T>(
    expr: Expr,
    codemap: Seq<FileView>,
    lex: Lexing,
    data: DataOf<T>,
) -> Result<Seq<CandidateView<T>>, RuleError> {
    match data(expr) {
        Err(e) => Err(e),
        Ok(_) => candidates_in(expr.operands(), codemap, lex, data),
    }
}

/// Where there is an error among the first nodes, it is the error of all of them.
proof fn lemma_candidates_in_part<T>(
    nodes: Seq<Node>,
    part: Seq<Node>,
    codemap: Seq<FileView>,
    lex: Lexing,
    data: DataOf<T>,
)
    requires
        part.len() <= nodes.len(),
        part == nodes.take(part.len() as int),
    ensures
        candidates_in(part, codemap, lex, data) is Err ==> candidates_in(nodes, codemap, lex, data)
            == candidates_in(part, codemap, lex, data),
    decreases nodes.len(),
{
    if part.len() < nodes.len() {
        assert(nodes.drop_last().take(part.len() as int) =~= part);
        lemma_candidates_in_part(nodes.drop_last(), part, codemap, lex, data);
    } else {
        assert(part =~= nodes);
    }
}

/// `data_fn` takes every expression.
pub open spec fn is_data_fn<'a, T, F: Fn(&'a Expr) -> Result<T, RuleError>>(data_fn: F) -> bool {
    forall|e: &'a Expr| #[trigger] call_requires(data_fn, (e,))
}

/// Whether `data` is what `data_fn` returns of each expression.
pub open spec fn is_data_of<'a, T, F: Fn(&'a Expr) -> Result<T, RuleError>>(
    data: DataOf<T>,
    data_fn: F,
) -> bool {
    forall|e: &'a Expr, r: Result<T, RuleError>| #[trigger]
        call_ensures(data_fn, (e,), r) ==> r == data(*e)
}

/// Whether a result is the one that is due.
pub open spec fn is_candidates<T>(
    r: Result<Vec<PlaceholderCandidate<T>>, RuleError>,
    due: Result<Seq<CandidateView<T>>, RuleError>,
) -> bool {
    match due {
        Ok(views) => r is Ok && candidates_view(r->Ok_0@) == views,
        Err(e) => r is Err && r->Err_0 == e,
    }
}

/// Finds the candidates for placeholders within an expression.
pub struct PlaceholderCandidateFinder<'m, F, L> {
    pub codemap: &'m CodeMap,
    pub lex: &'m L,
    pub data_fn: F,
}

impl<'m, F, L> PlaceholderCandidateFinder<'m, F, L> {
    /// The candidates within `node`. `data_fn` says what a candidate keeps of its expression.
    pub fn find_placeholder_candidates<'a, T>(
        codemap: &'m CodeMap,
        lex: &'m L,
        node: &'a Expr,
        data_fn: F,
    ) -> (r: Result<Vec<PlaceholderCandidate<T>>, RuleError>) where
        F: Fn(&'a Expr) -> Result<T, RuleError>,
        L: Fn(&str) -> TokenStream,

        requires
            is_lexer(*lex),
            is_data_fn(data_fn),
        ensures
            forall|d: DataOf<T>, lx: Lexing| #[trigger]
                is_data_of(d, data_fn) && #[trigger] is_lexing_of(lx, *lex) ==> is_candidates(
                    r,
                    candidates_within(*node, codemap@, lx, d),
                ),
    {
        let finder = PlaceholderCandidateFinder { codemap, lex, data_fn };
        let kept = finder.data(node);
        let r = match kept {
            Err(e) => Err(e),
            Ok(_) => finder.walk_expr_children(node),
        };
        assert forall|d: DataOf<T>, lx: Lexing| #[trigger]
            is_data_of(d, data_fn) && #[trigger] is_lexing_of(lx, *lex) implies is_candidates(
            r,
            candidates_within(*node, codemap@, lx, d),
        ) by {
            assert(is_data_of(d, finder.data_fn) && is_lexing_of(lx, *finder.lex));
        }
        r
    }

    fn data<'a, T>(&self, expr: &'a Expr) -> (r: Result<T, RuleError>) where
        F: Fn(&'a Expr) -> Result<T, RuleError>,

        requires
            is_data_fn(self.data_fn),
        ensures
            forall|d: DataOf<T>| #[trigger]
                is_data_of(d, self.data_fn) ==> r == d(*expr),
    {
        let f = &self.data_fn;
        f(expr)
    }

    fn walk_expr_children<'a, T>(&self, expr: &'a Expr) -> (r: Result<
        Vec<PlaceholderCandidate<T>>,
        RuleError,
    >) where F: Fn(&'a Expr) -> Result<T, RuleError>, L: Fn(&str) -> TokenStream
        requires
            is_lexer(*self.lex),
            is_data_fn(self.data_fn),
        ensures
            forall|d: DataOf<T>, lx: Lexing| #[trigger]
                is_data_of(d, self.data_fn)
                    && #[trigger] is_lexing_of(lx, *self.lex) ==> is_candidates(
                    r,
                    candidates_in(expr.operands(), self.codemap@, lx, d),
                ),
        decreases expr, 0nat,
    {
        let first: usize = if expr.is_call && expr.children.len() > 0 {
            1
        } else {
            0
        };
        assert(expr.children@.subrange(0, expr.children@.len() as int) =~= expr.children@);
        self.visit_nodes(&expr.children, first)
    }

    fn visit_expr<'a, T>(&self, expr: &'a Expr) -> (r: Result<
        PlaceholderCandidate<T>,
        RuleError,
    >) where F: Fn(&'a Expr) -> Result<T, RuleError>, L: Fn(&str) -> TokenStream
        requires
            is_lexer(*self.lex),
            is_data_fn(self.data_fn),
        ensures
            forall|d: DataOf<T>, lx: Lexing| #[trigger]
                is_data_of(d, self.data_fn)
                    && #[trigger] is_lexing_of(lx, *self.lex) ==> match candidate_of(
                    *expr,
                    self.codemap@,
                    lx,
                    d,
                ) {
                    Ok(view) => r is Ok && candidate_view(r->Ok_0) == view,
                    Err(e) => r is Err && r->Err_0 == e,
                },
        decreases expr, 1nat,
    {
        let data = match self.data(expr) {
            Err(e) => {
                return Err(e);
            },
            Ok(data) => data,
        };
        let mut candidate = PlaceholderCandidate::new(data);
        candidate.children = match self.walk_expr_children(expr) {
            Err(e) => {
                return Err(e);
            },
            Ok(children) => children,
        };
        proof {
            lemma_candidates_view(candidate.children@);
        }
        if candidate.children.is_empty() {
            match self.codemap.span_to_snippet(&expr.span) {
                None => {
                    return Err(RuleError::NoSnippet);
                },
                Some(snippet) => {
                    let stream = tokenize(self.lex, snippet.as_str());
                    candidate.hash = token_stream_hash(&stream);
                },
            }
        } else {
            candidate.hash = default_hash(&candidate.children);
            proof {
                lemma_candidate_writes(candidate.children@);
                assert(candidate.children.writes() =~= candidate_writes(
                    candidates_view(candidate.children@),
                ));
            }
        }
        Ok(candidate)
    }

    fn visit_all<'a, T>(&self, nodes: &'a Vec<Node>) -> (r: Result<
        Vec<PlaceholderCandidate<T>>,
        RuleError,
    >) where F: Fn(&'a Expr) -> Result<T, RuleError>, L: Fn(&str) -> TokenStream
        requires
            is_lexer(*self.lex),
            is_data_fn(self.data_fn),
        ensures
            forall|d: DataOf<T>, lx: Lexing| #[trigger]
                is_data_of(d, self.data_fn)
                    && #[trigger] is_lexing_of(lx, *self.lex) ==> is_candidates(
                    r,
                    candidates_in(nodes@, self.codemap@, lx, d),
                ),
        decreases nodes, 3nat,
    {
        assert(nodes@.subrange(0, nodes@.len() as int) =~= nodes@);
        self.visit_nodes(nodes, 0)
    }

    fn visit_nodes<'a, T>(&self, nodes: &'a Vec<Node>, from: usize) -> (r: Result<
        Vec<PlaceholderCandidate<T>>,
        RuleError,
    >) where F: Fn(&'a Expr) -> Result<T, RuleError>, L: Fn(&str) -> TokenStream
        requires
            is_lexer(*self.lex),
            is_data_fn(self.data_fn),
            from <= nodes.len(),
        ensures
            forall|d: DataOf<T>, lx: Lexing| #[trigger]
                is_data_of(d, self.data_fn)
                    && #[trigger] is_lexing_of(lx, *self.lex) ==> is_candidates(
                    r,
                    candidates_in(
                        nodes@.subrange(from as int, nodes@.len() as int),
                        self.codemap@,
                        lx,
                        d,
                    ),
                ),
        decreases nodes, 2nat,
    {
        let mut found: Vec<PlaceholderCandidate<T>> = Vec::new();
        let mut i: usize = from;
        assert(nodes@.subrange(from as int, from as int) =~= Seq::empty());
        while i < nodes.len()
            invariant
                from <= i <= nodes.len(),
                is_lexer(*self.lex),
                is_data_fn(self.data_fn),
                forall|d: DataOf<T>, lx: Lexing| #[trigger]
                    is_data_of(d, self.data_fn)
                        && #[trigger] is_lexing_of(lx, *self.lex) ==> candidates_in(
                        nodes@.subrange(from as int, i as int),
                        self.codemap@,
                        lx,
                        d,
                    ) == Ok::<Seq<CandidateView<T>>, RuleError>(candidates_view(found@)),
            decreases nodes.len() - i,
        {
            let ghost part = nodes@.subrange(from as int, i + 1);
            assert(part.drop_last() =~= nodes@.subrange(from as int, i as int));
            proof {
                let all = nodes@.subrange(from as int, nodes@.len() as int);
                assert(all.take(part.len() as int) =~= part);
                assert forall|d: DataOf<T>, lx: Lexing| #[trigger]
                    is_data_of(d, self.data_fn)
                        && #[trigger] is_lexing_of(lx, *self.lex) && candidates_in(
                        part,
                        self.codemap@,
                        lx,
                        d,
                    ) is Err implies candidates_in(all, self.codemap@, lx, d) == candidates_in(
                    part,
                    self.codemap@,
                    lx,
                    d,
                ) by {
                    lemma_candidates_in_part(all, part, self.codemap@, lx, d);
                }
            }
            let here = match &nodes[i] {
                Node::Item(item) => self.visit_all(&item.children),
                Node::Body(body) => self.visit_all(&body.children),
                Node::Path(path) => self.visit_all(&path.children),
                Node::Expr(expr) => match self.visit_expr(expr) {
                    Err(e) => Err(e),
                    Ok(candidate) => {
                        let one = vec![candidate];
                        proof {
                            lemma_candidates_view(one@);
                            assert(candidates_view(one@) =~= seq![candidate_view(one@[0])]);
                        }
                        Ok(one)
                    },
                },
            };
            assert forall|d: DataOf<T>, lx: Lexing| #[trigger]
                is_data_of(d, self.data_fn)
                    && #[trigger] is_lexing_of(lx, *self.lex) implies is_candidates(
                here,
                candidates_at(nodes@[i as int], self.codemap@, lx, d),
            ) by {}
            let mut here = match here {
                Err(e) => {
                    return Err(e);
                },
                Ok(here) => here,
            };
            proof {
                lemma_candidates_view_add(found@, here@);
            }
            found.append(&mut here);
            i = i + 1;
        }
        Ok(found)
    }
}

/// The candidates of a list and those within them, each before those within it.
pub open spec fn all_candidates<T>(candidates: Seq<CandidateView<T>>) -> Seq<CandidateView<T>>
    decreases candidates,
{
    if candidates.len() == 0 {
        Seq::empty()
    } else {
        all_candidates(candidates.drop_last()).push(candidates.last()) + all_candidates(
            candidates.last().children,
        )
    }
}

/// Those candidates of a list that have a hash.
pub open spec fn with_hash<T>(candidates: Seq<CandidateView<T>>, hash: u64) -> Seq<
    CandidateView<T>,
> {
    candidates.filter(|c: CandidateView<T>| c.hash == hash)
}

/// The candidates that a map holds under a hash.
pub open spec fn bucket<T>(map: Map<u64, Seq<CandidateView<T>>>, hash: u64) -> Seq<
    CandidateView<T>,
> {
    if map.contains_key(hash) {
        map[hash]
    } else {
        Seq::empty()
    }
}

/// The map after each candidate of a list was put behind those that have its hash.
pub open spec fn filed<T>(
    map: Map<u64, Seq<CandidateView<T>>>,
    candidates: Seq<CandidateView<T>>,
) -> Map<u64, Seq<CandidateView<T>>> {
    Map::new(
        |hash: u64| map.contains_key(hash) || with_hash(candidates, hash).len() > 0,
        |hash: u64| bucket(map, hash) + with_hash(candidates, hash),
    )
}

pub open spec fn refs_view<T>(candidates: Seq<&PlaceholderCandidate<T>>) -> Seq<CandidateView<T>> {
    Seq::new(candidates.len(), |i: int| candidate_view(*candidates[i]))
}

/// The candidates that a map holds under each hash.
pub open spec fn map_view<'a, T>(
    map: Map<u64, Vec<&'a PlaceholderCandidate<T>>>,
) -> Map<u64, Seq<CandidateView<T>>> {
    Map::new(|hash: u64| map.contains_key(hash), |hash: u64| refs_view(map[hash]@))
}

proof fn lemma_filed_add<T>(
    map: Map<u64, Seq<CandidateView<T>>>,
    a: Seq<CandidateView<T>>,
    b: Seq<CandidateView<T>>,
)
    ensures
        filed(filed(map, a), b) == filed(map, a + b),
{
    assert forall|hash: u64| #[trigger]
        with_hash(a + b, hash) == with_hash(a, hash) + with_hash(b, hash) by {
        Seq::filter_distributes_over_add(a, b, |c: CandidateView<T>| c.hash == hash);
    }
    let l = filed(filed(map, a), b);
    let r = filed(map, a + b);
    assert forall|hash: u64| l.contains_key(hash) == r.contains_key(hash) && (l.contains_key(hash)
        ==> l[hash] == #[trigger] r[hash]) by {
        assert(with_hash(a + b, hash) == with_hash(a, hash) + with_hash(b, hash));
        assert(bucket(filed(map, a), hash) =~= bucket(map, hash) + with_hash(a, hash));
        assert(bucket(map, hash) + with_hash(a, hash) + with_hash(b, hash) =~= bucket(map, hash) + (
        with_hash(a, hash) + with_hash(b, hash)));
    }
    assert forall|hash: u64| l.contains_key(hash) == #[trigger] r.contains_key(hash) by {
        let _ = r[hash];
    }
    assert(l =~= r);
}

proof fn lemma_filed_none<T>(map: Map<u64, Seq<CandidateView<T>>>)
    ensures
        filed(map, Seq::empty()) == map,
{
    reveal(Seq::filter);
    assert(filed(map, Seq::empty()) =~= map);
}

proof fn lemma_with_hash_one<T>(candidate: CandidateView<T>, hash: u64)
    ensures
        with_hash(seq![candidate], hash) == if candidate.hash == hash {
            seq![candidate]
        } else {
            Seq::empty()
        },
{
    reveal(Seq::filter);
    assert(seq![candidate].drop_last() =~= Seq::empty());
    assert(Seq::<CandidateView<T>>::empty().filter(|c: CandidateView<T>| c.hash == hash)
        =~= Seq::empty());
    assert(seq![candidate].last() == candidate);
    assert(Seq::empty().push(candidate) =~= seq![candidate]);
}

/// Puts the candidates, and those within them, into the map under their hashes.
pub fn populate_placeholder_map<'a, T>(
    candidates: &'a Vec<PlaceholderCandidate<T>>,
    map_out: &mut HashMap<u64, Vec<&'a PlaceholderCandidate<T>>>,
)
    ensures
        map_view(final(map_out)@) == filed(
            map_view(old(map_out)@),
            all_candidates(candidates_view(candidates@)),
        ),
    decreases candidates,
{
    broadcast use group_hash_axioms;

    let ghost views = candidates_view(candidates@);
    let ghost before = map_view(map_out@);
    proof {
        lemma_candidates_view(candidates@);
        lemma_filed_none(before);
        assert(views.take(0) =~= Seq::empty());
    }
    let mut i: usize = 0;
    while i < candidates.len()
        invariant
            i <= candidates.len(),
            views.len() == candidates.len(),
            forall|j: int|
                0 <= j < candidates.len() ==> #[trigger] views[j] == candidate_view(
                    candidates@[j],
                ),
            map_view(map_out@) == filed(before, all_candidates(views.take(i as int))),
        decreases candidates.len() - i,
    {
        let candidate = &candidates[i];
        let ghost view = views[i as int];
        let ghost done = all_candidates(views.take(i as int));
        let ghost map0 = map_out@;
        let held_before = map_out.remove(&candidate.hash);
        let mut same_hash: Vec<&'a PlaceholderCandidate<T>> = match held_before {
            Some(same_hash) => same_hash,
            None => Vec::new(),
        };
        let ghost held = same_hash@;
        same_hash.push(candidate);
        let ghost now_held = same_hash@;
        map_out.insert(candidate.hash, same_hash);
        proof {
            assert(view == candidate_view(*candidate));
            assert(refs_view(now_held) =~= refs_view(held).push(view));
            assert(refs_view(held) =~= bucket(map_view(map0), candidate.hash));
            assert forall|hash: u64| true implies #[trigger] with_hash(seq![view], hash)
                == if view.hash == hash { seq![view] } else { Seq::empty() } by {
                lemma_with_hash_one(view, hash);
            }
            let l = map_view(map_out@);
            let r = filed(map_view(map0), seq![view]);
            assert forall|hash: u64| #[trigger] l.contains_key(hash) == r.contains_key(hash) by {
                assert(with_hash(seq![view], hash).len() > 0 <==> view.hash == hash);
            }
            assert forall|hash: u64| l.contains_key(hash) implies #[trigger] l[hash] == r[hash] by {
                lemma_with_hash_one(view, hash);
                if hash == view.hash {
                    assert(l[hash] =~= r[hash]);
                } else {
                    assert(map_out@[hash] == map0[hash]);
                    assert(l[hash] =~= r[hash]);
                }
            }
            assert(l =~= r);
            lemma_filed_add(before, done, seq![view]);
            assert(done + seq![view] =~= done.push(view));
        }
        populate_placeholder_map(&candidate.children, map_out);
        proof {
            lemma_filed_add(before, done.push(view), all_candidates(view.children));
            assert(views.take(i + 1).drop_last() =~= views.take(i as int));
        }
        i = i + 1;
    }
    assert(views.take(i as int) =~= views);
}

} // verus!
