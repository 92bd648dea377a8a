use std::collections::hash_map::DefaultHasher;
use std::hash::Hasher;
use vstd::prelude::*;
use vstd::std_specs::hash::*;

verus! {

#[derive(PartialEq, Eq, Structural, Debug, Copy, Clone)]
pub enum Delimiter {
    Paren,
    Bracket,
    Brace,
    NoDelim,
}

/// A token, or a group of tokens between delimiters. No place in the source is kept with it.
#[derive(Debug, PartialEq, Eq)]
pub enum TokenTree {
    Token(String),
    Delimited(Delimiter, TokenStream),
}

#[derive(Debug, PartialEq, Eq)]
pub struct TokenStream {
    pub trees: Vec<TokenTree>,
}

/// What a token tree is, whatever holds its text.
pub enum TokenView {
    Token(Seq<char>),
    Delimited(Delimiter, Seq<TokenView>),
}

pub open spec fn tree_view(tree: TokenTree) -> TokenView
    decreases tree,
{
    match tree {
        TokenTree::Token(text) => TokenView::Token(text@),
        TokenTree::Delimited(delimiter, stream) => TokenView::Delimited(
            delimiter,
            trees_view(stream.trees@),
        ),
    }
}

pub open spec fn trees_view(trees: Seq<TokenTree>) -> Seq<TokenView>
    decreases trees,
{
    if trees.len() == 0 {
        Seq::empty()
    } else {
        trees_view(trees.drop_last()).push(tree_view(trees.last()))
    }
}

impl View for TokenStream {
    type V = Seq<TokenView>;

    open spec fn view(&self) -> Seq<TokenView> {
        trees_view(self.trees@)
    }
}

pub proof fn lemma_trees_view(trees: Seq<TokenTree>)
    ensures
        trees_view(trees).len() == trees.len(),
        forall|i: int|
            0 <= i < trees.len() ==> #[trigger] trees_view(trees)[i] == tree_view(trees[i]),
    decreases trees.len(),
{
    if trees.len() > 0 {
        lemma_trees_view(trees.drop_last());
    }
}

/// How many tokens there are, those between delimiters included and the delimiters not.
pub open spec fn token_count(trees: Seq<TokenView>) -> nat
    decreases trees,
{
    if trees.len() == 0 {
        0
    } else {
        token_count(trees.drop_last()) + match trees.last() {
            TokenView::Token(_) => 1,
            TokenView::Delimited(_, inner) => token_count(inner),
        }
    }
}

/// The bytes that stand for a token in a hash. They are the same for every token.
pub open spec fn token_bytes() -> Seq<u8> {
    seq![42u8, 0u8, 0u8, 0u8]
}

/// What hashing `count` tokens writes into a hasher.
pub open spec fn token_writes(count: nat) -> Seq<Seq<u8>> {
    Seq::new(count, |i: int| token_bytes())
}

/// The hash of a stream of tokens.
pub open spec fn stream_hash(trees: Seq<TokenView>) -> u64 {
    DefaultHasher::spec_finish(token_writes(token_count(trees)))
}

proof fn lemma_token_writes(m: nat, n: nat)
    ensures
        token_writes(m) + token_writes(n) == token_writes(m + n),
{
    assert(token_writes(m) + token_writes(n) =~= token_writes(m + n));
}

/// Writes the same bytes into the hasher for each token. Streams with different shapes are then
/// likely to have different hashes, which is all that the hash is for.
pub fn hash_token_stream(stream: &TokenStream, hasher: &mut DefaultHasher)
    ensures
        final(hasher)@ == old(hasher)@ + token_writes(token_count(stream@)),
    decreases stream,
{
    let mut i: usize = 0;
    proof {
        lemma_trees_view(stream.trees@);
        assert(token_writes(0) =~= Seq::empty());
        assert(stream@.take(0) =~= Seq::empty());
    }
    while i < stream.trees.len()
        invariant
            i <= stream.trees.len(),
            stream@.len() == stream.trees.len(),
            forall|j: int|
                0 <= j < stream.trees.len() ==> #[trigger] stream@[j] == tree_view(
                    stream.trees@[j],
                ),
            hasher@ == old(hasher)@ + token_writes(token_count(stream@.take(i as int))),
        decreases stream.trees.len() - i,
    {
        proof {
            assert(stream@.take(i + 1).drop_last() =~= stream@.take(i as int));
            assert(stream@[i as int] == tree_view(stream.trees@[i as int]));
        }
        match &stream.trees[i] {
            TokenTree::Token(_) => {
                let bytes: Vec<u8> = vec![42u8, 0u8, 0u8, 0u8];
                hasher.write(bytes.as_slice());
                proof {
                    assert(bytes@ =~= token_bytes());
                    lemma_token_writes(token_count(stream@.take(i as int)), 1);
                    assert(token_writes(1) =~= seq![token_bytes()]);
                }
            },
            TokenTree::Delimited(_, inner) => {
                hash_token_stream(inner, hasher);
                proof {
                    lemma_token_writes(token_count(stream@.take(i as int)), token_count(inner@));
                }
            },
        }
        i = i + 1;
    }
    assert(stream@.take(i as int) =~= stream@);
}

/// The hash of a stream of tokens.
pub fn token_stream_hash(stream: &TokenStream) -> (r: u64)
    ensures
        r == stream_hash(stream@),
{
    let mut hasher = DefaultHasher::new();
    hash_token_stream(stream, &mut hasher);
    assert(hasher@ =~= token_writes(token_count(stream@)));
    hasher.finish()
}

impl TokenTree {
    pub fn eq_unspanned(&self, other: &TokenTree) -> (r: bool)
        ensures
            r == (tree_view(*self) == tree_view(*other)),
        decreases self, 0nat,
    {
        match (self, other) {
            (TokenTree::Token(a), TokenTree::Token(b)) => *a == *b,
            (TokenTree::Delimited(d, a), TokenTree::Delimited(e, b)) => {
                *d == *e && a.eq_unspanned(b)
            },
            _ => false,
        }
    }
}

impl TokenStream {
    /// Whether the two streams have the same tokens, wherever in the source these stand.
    pub fn eq_unspanned(&self, other: &TokenStream) -> (r: bool)
        ensures
            r == (self@ == other@),
        decreases self, 1nat,
    {
        proof {
            lemma_trees_view(self.trees@);
            lemma_trees_view(other.trees@);
        }
        if self.trees.len() != other.trees.len() {
            return false;
        }
        let mut i: usize = 0;
        while i < self.trees.len()
            invariant
                i <= self.trees.len(),
                self.trees.len() == other.trees.len(),
                self@.len() == self.trees.len(),
                other@.len() == other.trees.len(),
                forall|j: int|
                    0 <= j < self@.len() ==> #[trigger] self@[j] == tree_view(self.trees@[j]),
                forall|j: int|
                    0 <= j < other@.len() ==> #[trigger] other@[j] == tree_view(other.trees@[j]),
                forall|j: int| 0 <= j < i ==> #[trigger] self@[j] == other@[j],
            decreases self.trees.len() - i,
        {
            let same = self.trees[i].eq_unspanned(&other.trees[i]);
            assert(same == (self@[i as int] == other@[i as int]));
            if !same {
                return false;
            }
            i = i + 1;
        }
        assert(self@ =~= other@);
        true
    }
}

/// The tokens of each text.
pub type Lexing = spec_fn(Seq<char>) -> Seq<TokenView>;

/// `lex` takes every text.
pub open spec fn is_lexer<L: Fn(&str) -> TokenStream>(lex: L) -> bool {
    forall|s: &str| #[trigger] call_requires(lex, (s,))
}

/// Whether `tokens` are those that `lex` makes of each text.
pub open spec fn is_lexing_of<L: Fn(&str) -> TokenStream>(
    tokens: Lexing,
    lex: L,
) -> bool {
    forall|s: &str, r: TokenStream| #[trigger] call_ensures(lex, (s,), r) ==> r@ == tokens(s@)
}

/// Calls the lexer.
pub fn tokenize<L: Fn(&str) -> TokenStream>(lex: &L, text: &str) -> (r: TokenStream)
    requires
        is_lexer(*lex),
    ensures
        forall|lx: Lexing| #[trigger]
            is_lexing_of(lx, *lex) ==> r@ == lx(text@),
{
    lex(text)
}

} // verus!
