//! The prefix tree behind the tokenizer, provided by the `patricia_tree` crate.
//!
//! Nothing in this file is proved: each function states what the crate's
//! source shows of the method it calls, over [`trie_entries`].

use patricia_tree::PatriciaMap;
use vstd::prelude::*;

verus! {

/// `patricia_tree::GenericPatriciaMap`, of which nothing is seen but
/// through the functions below.
#[verifier::external_type_specification]
#[verifier::external_body]
#[verifier::reject_recursive_types(K)]
#[verifier::reject_recursive_types(V)]
pub struct ExGenericPatriciaMap<K, V>(patricia_tree::GenericPatriciaMap<K, V>);

/// The key/value pairs that a prefix tree holds, keys as byte strings.
pub uninterp spec fn trie_entries(trie: PatriciaMap<u32>) -> Map<Seq<u8>, u32>;

/// `PatriciaMap::new`: a tree without entries.
#[verifier::external_body]
pub(crate) fn trie_new() -> (trie: PatriciaMap<u32>)
    ensures
        trie_entries(trie) == (Map::<Seq<u8>, u32>::empty()),
{
    PatriciaMap::new()
}

/// `PatriciaMap::insert`: afterwards `key` maps to `value`, replacing what it
/// mapped to before; every other entry stays.
#[verifier::external_body]
pub(crate) fn trie_insert(trie: &mut PatriciaMap<u32>, key: &[u8], value: u32)
    ensures
        trie_entries(*final(trie)) == trie_entries(*old(trie)).insert(key@, value),
{
    trie.insert(key, value);
}

/// `PatriciaMap::get_longest_common_prefix`: the longest prefix of `text`
/// that is a key of the tree, as its length and its value; `None` when no
/// prefix of `text`, the empty one included, is a key.
#[verifier::external_body]
pub(crate) fn trie_longest_prefix(trie: &PatriciaMap<u32>, text: &[u8]) -> (found: Option<
    (usize, u32),
>)
    ensures
        match found {
            Some((n, value)) => {
                &&& n <= text@.len()
                &&& trie_entries(*trie).contains_key(text@.subrange(0, n as int))
                &&& trie_entries(*trie)[text@.subrange(0, n as int)] == value
                &&& forall|m: int|
                    n < m <= text@.len() ==> !trie_entries(*trie).contains_key(
                        #[trigger] text@.subrange(0, m),
                    )
            },
            None => forall|m: int|
                0 <= m <= text@.len() ==> !trie_entries(*trie).contains_key(
                    #[trigger] text@.subrange(0, m),
                ),
        },
{
    trie.get_longest_common_prefix(text).map(|(prefix, value)| (prefix.len(), *value))
}

} // verus!
