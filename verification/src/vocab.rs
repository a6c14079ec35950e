//! Vocabulary data structure for token-ID mappings.
//!
//! The ID of a token is its position in the token list; looking a token
//! up gives the first position that holds it.

use vstd::prelude::*;
use crate::chars::views;
use crate::config::SpecialTokens;

verus! {

/// The first position at or after `from` whose token equals `t`.
pub open spec fn lookup_from(toks: Seq<Seq<char>>, t: Seq<char>, from: int) -> Option<int>
    decreases toks.len() - from,
{
    if from < 0 || from >= toks.len() {
        None
    } else if toks[from] == t {
        Some(from)
    } else {
        lookup_from(toks, t, from + 1)
    }
}

/// The ID of `t` in the token list `toks`: its first position, if any.
pub open spec fn spec_lookup(toks: Seq<Seq<char>>, t: Seq<char>) -> Option<int> {
    lookup_from(toks, t, 0)
}

/// An optional `usize` index seen as an optional integer.
pub open spec fn as_index(r: Option<usize>) -> Option<int> {
    match r {
        Some(i) => Some(i as int),
        None => None,
    }
}

/// What a lookup from `from` finds: the first matching position, or none.
pub proof fn lemma_lookup_from(toks: Seq<Seq<char>>, t: Seq<char>, from: int)
    requires
        0 <= from,
    ensures
        lookup_from(toks, t, from) matches Some(k) ==> from <= k < toks.len() && toks[k] == t
            && forall|j: int| from <= j < k ==> toks[j] != t,
        lookup_from(toks, t, from) is None ==> forall|j: int| from <= j < toks.len() ==> toks[j]
            != t,
    decreases toks.len() - from,
{
    if from < toks.len() && toks[from] != t {
        lemma_lookup_from(toks, t, from + 1);
    }
}

/// Looking a token up gives a position that holds it, and the first one;
/// no position holds a token whose lookup fails.
pub proof fn lemma_lookup(toks: Seq<Seq<char>>, t: Seq<char>)
    ensures
        spec_lookup(toks, t) matches Some(k) ==> 0 <= k < toks.len() && toks[k] == t && forall|
            j: int,
        | 0 <= j < k ==> toks[j] != t,
        spec_lookup(toks, t) is None <==> !toks.contains(t),
{
    lemma_lookup_from(toks, t, 0);
}

/// Bidirectional mapping: in a vocabulary without repeated tokens, the ID
/// of the token at position `i` is `i`.
pub proof fn lemma_id_of_token(toks: Seq<Seq<char>>, i: int)
    requires
        toks.no_duplicates(),
        0 <= i < toks.len(),
    ensures
        spec_lookup(toks, toks[i]) == Some(i),
{
    lemma_lookup(toks, toks[i]);
}

/// Bidirectional mapping: the token at the ID that a lookup gives is the
/// token looked up.
pub proof fn lemma_token_of_id(toks: Seq<Seq<char>>, t: Seq<char>)
    requires
        spec_lookup(toks, t) is Some,
    ensures
        0 <= spec_lookup(toks, t)->0 < toks.len(),
        toks[spec_lookup(toks, t)->0] == t,
{
    lemma_lookup(toks, t);
}

/// A vocabulary mapping between tokens and their IDs.
#[derive(Debug, Clone)]
pub struct Vocab {
    /// Maps numeric IDs to token strings
    id_to_token: Vec<String>,
    /// Special tokens configuration
    special_tokens: SpecialTokens,
}

impl View for Vocab {
    type V = Seq<Seq<char>>;

    /// The tokens, indexed by ID.
    closed spec fn view(&self) -> Seq<Seq<char>> {
        views(self.id_to_token@)
    }
}

impl Vocab {
    /// The special tokens the vocabulary was built with.
    pub closed spec fn special(&self) -> SpecialTokens {
        self.special_tokens
    }

    /// The ID of the unknown token, if it is in the vocabulary.
    pub open spec fn spec_unk_id(&self) -> Option<int> {
        spec_lookup(self@, self.special().unk@)
    }

    /// The ID of the classification token, if it is in the vocabulary.
    pub open spec fn spec_cls_id(&self) -> Option<int> {
        spec_lookup(self@, self.special().cls@)
    }

    /// The ID of the separator token, if it is in the vocabulary.
    pub open spec fn spec_sep_id(&self) -> Option<int> {
        spec_lookup(self@, self.special().sep@)
    }

    /// Builds a vocabulary whose token with ID `i` is `tokens[i]`.
    pub fn new(tokens: Vec<String>, special_tokens: SpecialTokens) -> (v: Self)
        ensures
            v@ == views(tokens@),
            v.special() == special_tokens,
    {
        Vocab { id_to_token: tokens, special_tokens }
    }

    /// Number of tokens.
    pub fn len(&self) -> (r: usize)
        ensures
            r == self@.len(),
    {
        self.id_to_token.len()
    }

    /// Whether the vocabulary holds no token.
    pub fn is_empty(&self) -> (r: bool)
        ensures
            r == (self@.len() == 0),
    {
        self.id_to_token.len() == 0
    }

    /// The ID of a token given as an owned string.
    pub fn lookup(&self, token: &String) -> (r: Option<usize>)
        ensures
            as_index(r) == spec_lookup(self@, token@),
    {
        let mut i: usize = 0;
        while i < self.id_to_token.len()
            invariant
                i <= self@.len(),
                self@ == views(self.id_to_token@),
                spec_lookup(self@, token@) == lookup_from(self@, token@, i as int),
            decreases self@.len() - i,
        {
            if self.id_to_token[i] == *token {
                return Some(i);
            }
            i = i + 1;
        }
        None
    }

    /// The ID of `token`, if it is in the vocabulary (its first position).
    pub fn get_id(&self, token: &str) -> (r: Option<usize>)
        ensures
            as_index(r) == spec_lookup(self@, token@),
    {
        let owned = token.to_owned();
        self.lookup(&owned)
    }

    /// The token with ID `id`, if `id` is below the vocabulary size.
    pub fn get_token(&self, id: usize) -> (r: Option<&str>)
        ensures
            id < self@.len() ==> (r matches Some(s) && s@ == self@[id as int]),
            id >= self@.len() ==> r is None,
    {
        if id < self.id_to_token.len() {
            Some(self.id_to_token[id].as_str())
        } else {
            None
        }
    }

    /// The ID of the padding token.
    pub fn pad_id(&self) -> (r: Option<usize>)
        ensures
            as_index(r) == spec_lookup(self@, self.special().pad@),
    {
        self.lookup(&self.special_tokens.pad)
    }

    /// The ID of the unknown token.
    pub fn unk_id(&self) -> (r: Option<usize>)
        ensures
            as_index(r) == self.spec_unk_id(),
    {
        self.lookup(&self.special_tokens.unk)
    }

    /// The ID of the classification token.
    pub fn cls_id(&self) -> (r: Option<usize>)
        ensures
            as_index(r) == self.spec_cls_id(),
    {
        self.lookup(&self.special_tokens.cls)
    }

    /// The ID of the separator token.
    pub fn sep_id(&self) -> (r: Option<usize>)
        ensures
            as_index(r) == self.spec_sep_id(),
    {
        self.lookup(&self.special_tokens.sep)
    }

    /// The ID of the mask token.
    pub fn mask_id(&self) -> (r: Option<usize>)
        ensures
            as_index(r) == spec_lookup(self@, self.special().mask@),
    {
        self.lookup(&self.special_tokens.mask)
    }

    /// The special tokens of this vocabulary.
    pub fn special_tokens(&self) -> (r: &SpecialTokens)
        ensures
            *r == self.special(),
    {
        &self.special_tokens
    }
}

} // verus!
