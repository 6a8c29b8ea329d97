//! The identifier codec: a bijective mapping between internal 64-bit keys and
//! opaque public tokens. One of two strategies is chosen at startup and stays
//! fixed for the process lifetime.

use vstd::prelude::*;
use crate::words;
use crate::hashed;

verus! {

/// Which token encoding is active.
#[derive(Clone, Copy, PartialEq, Eq, Structural, Debug)]
pub enum Strategy {
    /// Word-sequence tokens: dash-joined animal words.
    Words,
    /// Salted fixed-width symbol tokens, masked with the configured salt.
    Hashed { salt: u64 },
}

/// The token text of an identifier under a strategy.
pub open spec fn spec_token(st: Strategy, id: u64) -> Seq<char> {
    match st {
        Strategy::Words => words::words_token(id as nat),
        Strategy::Hashed { salt } => hashed::hashed_token(id, salt),
    }
}

/// Encodes an identifier as its public token.
pub fn encode(st: Strategy, id: u64) -> (s: String)
    ensures
        s@ == spec_token(st, id),
{
    match st {
        Strategy::Words => words::encode_words(id),
        Strategy::Hashed { salt } => hashed::encode_hashed(id, salt),
    }
}

/// Decodes a public token back to its identifier.
///
/// The result is `Some(id)` precisely when the input is the token that
/// `encode` produces for `id` under the same strategy: decoding what was
/// encoded returns the original identifier, and a string that no identifier
/// encodes to — garbage included — decodes to `None`, so a lookup with it
/// simply misses.
pub fn decode(st: Strategy, s: &str) -> (r: Option<u64>)
    ensures
        r matches Some(id) ==> s@ == spec_token(st, id),
        forall|id: u64| s@ == spec_token(st, id) ==> r == Some(id),
{
    match st {
        Strategy::Words => words::decode_words(s),
        Strategy::Hashed { salt } => hashed::decode_hashed(s, salt),
    }
}

/// Tokens are unique: under one strategy, equal tokens mean equal
/// identifiers, so a public token never reaches more than one record.
pub proof fn lemma_token_injective(st: Strategy, a: u64, b: u64)
    requires
        spec_token(st, a) == spec_token(st, b),
    ensures
        a == b,
{
    match st {
        Strategy::Words => words::lemma_words_token_injective(a, b),
        Strategy::Hashed { salt } => hashed::lemma_hashed_token_injective(a, b, salt),
    }
}

} // verus!
