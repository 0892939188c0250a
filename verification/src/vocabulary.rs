//! Vocabularies: the tokens of a language model and their identifiers.

use crate::primitives::{Error, Token, TokenId};
use rustc_hash::FxHashMap;
use vstd::prelude::*;

verus! {

/// A vocabulary as a mathematical value.
#[verifier::ext_equal]
pub struct VocabularyView {
    /// The identifiers of each token, in the order in which they were inserted.
    pub tokens: Map<Seq<u8>, Seq<TokenId>>,
    /// The identifier that ends a sequence.
    pub eos: TokenId,
}

impl VocabularyView {
    /// Whether `token` stands for text: tokens that share the end-of-sequence identifier do not.
    pub open spec fn usable(self, token: Seq<u8>) -> bool {
        self.tokens.contains_key(token) && !self.tokens[token].contains(self.eos)
    }

    /// Whether `token` stands for text and `id` is one of its identifiers.
    pub open spec fn bears(self, token: Seq<u8>, id: TokenId) -> bool {
        self.usable(token) && self.tokens[token].contains(id)
    }

    /// Whether no identifier belongs to two tokens that stand for text.
    pub open spec fn unambiguous(self) -> bool {
        forall|first: Seq<u8>, second: Seq<u8>, id: TokenId|
            self.bears(first, id) && self.bears(second, id) ==> first == second
    }
}

/// The token map of a vocabulary: each token with its identifiers, byte for byte.
pub uninterp spec fn token_map(map: FxHashMap<Token, Vec<TokenId>>) -> Map<Seq<u8>, Seq<TokenId>>;

/// `HashMap::default`: a map without tokens.
#[verifier::external_body]
fn tokens_default() -> (created: FxHashMap<Token, Vec<TokenId>>)
    ensures
        (token_map(created) == Map::<Seq<u8>, Seq<TokenId>>::empty()),
{
    FxHashMap::default()
}

/// `HashMap::remove`: takes the identifiers of a token out of the map. Tokens are the same if
/// their bytes are.
#[verifier::external_body]
fn tokens_remove(map: &mut FxHashMap<Token, Vec<TokenId>>, token: &Token) -> (ids: Option<
    Vec<TokenId>,
>)
    ensures
        token_map(*final(map)) == token_map(*old(map)).remove(token@),
        match ids {
            Some(v) => token_map(*old(map)).contains_key(token@) && v@ == token_map(*old(map))[token@],
            None => !token_map(*old(map)).contains_key(token@),
        },
{
    map.remove(token)
}

/// `HashMap::insert`: stores the identifiers of a token.
#[verifier::external_body]
fn tokens_insert(map: &mut FxHashMap<Token, Vec<TokenId>>, token: Token, ids: Vec<TokenId>)
    ensures
        token_map(*final(map)) == token_map(*old(map)).insert(token@, ids@),
{
    map.insert(token, ids);
}

/// Whether `entries` lists every token of `map` once, with its identifiers.
pub open spec fn lists(entries: Seq<(&Token, &Vec<TokenId>)>, map: Map<Seq<u8>, Seq<TokenId>>) -> bool {
    &&& forall|i: int|
        0 <= i < entries.len() ==> {
            &&& map.contains_key((#[trigger] entries[i]).0@)
            &&& map[entries[i].0@] == entries[i].1@
        }
    &&& forall|i: int, j: int|
        0 <= i < j < entries.len() ==> (#[trigger] entries[i]).0@ != (#[trigger] entries[j]).0@
    &&& forall|token: Seq<u8>| #[trigger]
        map.contains_key(token) ==> exists|i: int|
            0 <= i < entries.len() && (#[trigger] entries[i]).0@ == token
}

/// `HashMap::iter`: every token once with its identifiers, in an order that the map does not
/// promise.
#[verifier::external_body]
pub(crate) fn tokens_entries(map: &FxHashMap<Token, Vec<TokenId>>) -> (entries: Vec<
    (&Token, &Vec<TokenId>),
>)
    ensures
        lists(entries@, token_map(*map)),
{
    map.iter().collect()
}

/// A collection of tokens, each with one or more identifiers, and the identifier of the
/// end-of-sequence token.
#[derive(Debug)]
pub struct Vocabulary {
    eos_token_id: TokenId,
    tokens: FxHashMap<Token, Vec<TokenId>>,
}

impl View for Vocabulary {
    type V = VocabularyView;

    closed spec fn view(&self) -> VocabularyView {
        VocabularyView { tokens: token_map(self.tokens), eos: self.eos_token_id }
    }
}

impl Vocabulary {
    /// Creates a vocabulary that knows only the identifier that ends a sequence.
    pub fn new(eos_token_id: TokenId) -> (vocabulary: Self)
        ensures
            vocabulary@.eos == eos_token_id,
            vocabulary@.tokens == Map::<Seq<u8>, Seq<TokenId>>::empty(),
    {
        Vocabulary { eos_token_id, tokens: tokens_default() }
    }

    /// Creates a vocabulary from its tokens.
    pub fn from_tokens(eos_token_id: TokenId, tokens: FxHashMap<Token, Vec<TokenId>>) -> (vocabulary: Self)
        ensures
            vocabulary@.eos == eos_token_id,
            vocabulary@.tokens == token_map(tokens),
    {
        Vocabulary { eos_token_id, tokens }
    }

    /// Adds `id` to the identifiers of `token`, unless it is the one that ends a sequence.
    pub fn try_insert(&mut self, token: Token, id: TokenId) -> (inserted: Result<(), Error>)
        ensures
            final(self)@.eos == old(self)@.eos,
            match inserted {
                Ok(_) => {
                    &&& id != old(self)@.eos
                    &&& final(self)@.tokens == old(self)@.tokens.insert(
                        token@,
                        (if old(self)@.tokens.contains_key(token@) {
                            old(self)@.tokens[token@]
                        } else {
                            Seq::empty()
                        }).push(id),
                    )
                },
                Err(error) => {
                    &&& id == old(self)@.eos
                    &&& error is EOSTokenDisallowed
                    &&& final(self)@ == old(self)@
                },
            },
    {
        if id == self.eos_token_id {
            return Err(Error::EOSTokenDisallowed);
        }
        let mut ids: Vec<TokenId> = match tokens_remove(&mut self.tokens, &token) {
            Some(ids) => ids,
            None => Vec::new(),
        };
        ids.push(id);
        let ghost bytes = token@;
        tokens_insert(&mut self.tokens, token, ids);
        proof {
            assert(self@.tokens =~= old(self)@.tokens.insert(bytes, ids@));
        }
        Ok(())
    }

    /// Returns the tokens and their identifiers.
    pub fn tokens(&self) -> (tokens: &FxHashMap<Token, Vec<TokenId>>)
        ensures
            token_map(*tokens) == self@.tokens,
    {
        &self.tokens
    }

    /// Returns the identifier that ends a sequence.
    pub fn eos_token_id(&self) -> (id: TokenId)
        ensures
            id == self@.eos,
    {
        self.eos_token_id
    }
}

/// Whether `id` is one of `ids`.
pub(crate) fn contains_id(ids: &Vec<TokenId>, id: TokenId) -> (found: bool)
    ensures
        found == ids@.contains(id),
{
    let mut i: usize = 0;
    while i < ids.len()
        invariant
            i <= ids@.len(),
            forall|j: int| 0 <= j < i ==> ids@[j] != id,
        decreases ids@.len() - i,
    {
        if ids[i] == id {
            return true;
        }
        i = i + 1;
    }
    false
}

} // verus!
