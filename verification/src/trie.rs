//! The vocabulary trie, backed by the trie-rs crate.
//!
//! The contents of a trie are modelled by the uninterpreted set
//! `trie_tokens`; every wrapper's contract is stated over that set and over
//! `builder_tokens` for a builder under construction.

use vstd::prelude::*;

verus! {

use crate::text::is_prefix_of;

#[verifier::external_type_specification]
#[verifier::external_body]
#[verifier::reject_recursive_types(Label)]
pub struct ExTrie<Label>(trie_rs::Trie<Label>);

#[verifier::external_type_specification]
#[verifier::external_body]
#[verifier::reject_recursive_types(Label)]
pub struct ExTrieBuilder<Label>(trie_rs::TrieBuilder<Label>);

/// The entries stored in a byte trie, read as character sequences.
pub uninterp spec fn trie_tokens(t: trie_rs::Trie<u8>) -> Set<Seq<char>>;

/// The entries pushed into a trie builder so far, read as character
/// sequences.
pub uninterp spec fn builder_tokens(b: trie_rs::TrieBuilder<u8>) -> Set<Seq<char>>;

/// Relies on trie_rs::TrieBuilder::new: a builder holding no entries yet.
#[verifier::external_body]
pub fn trie_builder_new() -> (b: trie_rs::TrieBuilder<u8>)
    ensures
        builder_tokens(b) == Set::<Seq<char>>::empty(),
{
    trie_rs::TrieBuilder::new()
}

/// Relies on trie_rs::TrieBuilder::push: adds one entry's bytes to the
/// builder.
#[verifier::external_body]
pub fn trie_builder_push(b: &mut trie_rs::TrieBuilder<u8>, s: &str)
    requires
        s@.len() > 0,
    ensures
        builder_tokens(*final(b)) == builder_tokens(*old(b)).insert(s@),
{
    b.push(s);
}

/// Relies on trie_rs::TrieBuilder::build: the trie holds exactly the pushed
/// entries.
#[verifier::external_body]
pub fn trie_build(b: trie_rs::TrieBuilder<u8>) -> (t: trie_rs::Trie<u8>)
    ensures
        trie_tokens(t) == builder_tokens(b),
{
    b.build()
}

/// Relies on trie_rs::Trie::exact_match: true exactly for stored entries;
/// the empty query never matches.
#[verifier::external_body]
pub fn trie_contains(t: &trie_rs::Trie<u8>, s: &str) -> (r: bool)
    ensures
        s@.len() > 0 ==> r == trie_tokens(*t).contains(s@),
        s@.len() == 0 ==> r == false,
{
    t.exact_match(s)
}

/// Relies on trie_rs::Trie::common_prefix_search: yields exactly the stored
/// entries that are prefixes of the query.
#[verifier::external_body]
pub fn trie_common_prefixes(t: &trie_rs::Trie<u8>, s: &str) -> (r: Vec<String>)
    ensures
        forall|i: int|
            0 <= i < r@.len() ==> trie_tokens(*t).contains((#[trigger] r@[i])@) && is_prefix_of(
                r@[i]@,
                s@,
            ) && r@[i]@.len() > 0,
        forall|tok: Seq<char>|
            #[trigger] trie_tokens(*t).contains(tok) && is_prefix_of(tok, s@) && tok.len() > 0
                ==> exists|i: int| 0 <= i < r@.len() && r@[i]@ == tok,
{
    t.common_prefix_search::<String, _>(s).collect()
}

/// A trie over the non-empty entries of a list of strings.
pub fn build_trie(tokens: &Vec<String>) -> (t: trie_rs::Trie<u8>)
    ensures
        trie_tokens(t) == nonempty_texts(tokens@),
{
    let mut b = trie_builder_new();
    let mut i: usize = 0;
    while i < tokens.len()
        invariant
            0 <= i <= tokens@.len(),
            builder_tokens(b) =~= nonempty_texts(tokens@.subrange(0, i as int)),
        decreases tokens@.len() - i,
    {
        let ghost before = tokens@.subrange(0, i as int);
        if !tokens[i].as_str().is_empty() {
            trie_builder_push(&mut b, tokens[i].as_str());
        }
        i = i + 1;
        proof {
            assert(tokens@.subrange(0, i as int).drop_last() =~= before);
            assert(nonempty_texts(tokens@.subrange(0, i as int)) =~= if tokens@[i - 1]@.len() > 0 {
                nonempty_texts(before).insert(tokens@[i - 1]@)
            } else {
                nonempty_texts(before)
            });
            assert(builder_tokens(b) =~= nonempty_texts(tokens@.subrange(0, i as int)));
        }
    }
    proof {
        assert(tokens@.subrange(0, tokens@.len() as int) =~= tokens@);
    }
    trie_build(b)
}

/// The set of non-empty texts among a list of strings.
pub open spec fn nonempty_texts(s: Seq<String>) -> Set<Seq<char>>
    decreases s.len(),
{
    if s.len() == 0 {
        Set::empty()
    } else if s.last()@.len() > 0 {
        nonempty_texts(s.drop_last()).insert(s.last()@)
    } else {
        nonempty_texts(s.drop_last())
    }
}

} // verus!
