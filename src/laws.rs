//! Laws that relate the trie's operations, stated over what a descent from
//! the root of each version finds.
//!
//! Each version is described by the contract of the call that built it:
//! `HashTrie::new` gives an empty view, `insert` and `remove` give the old
//! view updated at one entry. `HashTrie::root` hands out the root these laws
//! speak of, and `get_at` returns what `lookup` gives.

use vstd::prelude::*;
use crate::node::{lookup, TrieError};
use crate::trie::HashTrie;

verus! {

/// Looking up a key just inserted into the empty trie, from the new root,
/// finds the inserted value.
pub proof fn law_round_trip<K, V>(empty: HashTrie<K, V>, t: HashTrie<K, V>, h: crate::chunk::Hash, k: K, v: V)
    requires
        empty.wf(),
        empty@ == Map::<(crate::chunk::Hash, K), V>::empty(),
        t.wf(),
        t@ == empty@.insert((h, k), v),
    ensures
        lookup(t.root_node(), h as nat, k) == Ok::<Option<V>, TrieError>(Some(v)),
{
    t.lemma_lookup_from_root(h, k);
}

/// Inserting under one hash leaves what is found under any other hash as it
/// was, from the old root as from the new one.
pub proof fn law_insert_keeps_other_hashes<K, V>(
    t: HashTrie<K, V>,
    t2: HashTrie<K, V>,
    h1: crate::chunk::Hash,
    k1: K,
    h2: crate::chunk::Hash,
    k2: K,
    v2: V,
)
    requires
        h1 != h2,
        t.wf(),
        t2.wf(),
        t2@ == t@.insert((h2, k2), v2),
    ensures
        lookup(t2.root_node(), h1 as nat, k1) == lookup(t.root_node(), h1 as nat, k1),
{
    t.lemma_lookup_from_root(h1, k1);
    t2.lemma_lookup_from_root(h1, k1);
}

/// Inserting a key twice is the same as inserting it once with the second
/// value: the same entries, and every descent finds the same thing.
pub proof fn law_overwrite<K, V>(
    t: HashTrie<K, V>,
    once: HashTrie<K, V>,
    first: HashTrie<K, V>,
    twice: HashTrie<K, V>,
    h: crate::chunk::Hash,
    k: K,
    v1: V,
    v2: V,
)
    requires
        t.wf(),
        once.wf(),
        first.wf(),
        twice.wf(),
        once@ == t@.insert((h, k), v2),
        first@ == t@.insert((h, k), v1),
        twice@ == first@.insert((h, k), v2),
    ensures
        twice@ == once@,
        lookup(twice.root_node(), h as nat, k) == Ok::<Option<V>, TrieError>(Some(v2)),
        forall|h2: crate::chunk::Hash, k2: K|
            #[trigger] lookup(twice.root_node(), h2 as nat, k2) == lookup(once.root_node(), h2 as nat, k2),
{
    assert(twice@ =~= once@);
    twice.lemma_lookup_from_root(h, k);
    assert forall|h2: crate::chunk::Hash, k2: K|
        #[trigger] lookup(twice.root_node(), h2 as nat, k2) == lookup(once.root_node(), h2 as nat, k2) by {
        twice.lemma_lookup_from_root(h2, k2);
        once.lemma_lookup_from_root(h2, k2);
    }
}

/// Removing the key just inserted into the empty trie leaves nothing to find
/// under it.
pub proof fn law_remove_after_insert<K, V>(
    empty: HashTrie<K, V>,
    t: HashTrie<K, V>,
    r: HashTrie<K, V>,
    h: crate::chunk::Hash,
    k: K,
    v: V,
)
    requires
        empty.wf(),
        empty@ == Map::<(crate::chunk::Hash, K), V>::empty(),
        t.wf(),
        t@ == empty@.insert((h, k), v),
        r.wf(),
        r@ == t@.remove((h, k)),
    ensures
        lookup(r.root_node(), h as nat, k) == Ok::<Option<V>, TrieError>(None),
{
    r.lemma_lookup_from_root(h, k);
}

/// Two distinct keys under the same hash are stored side by side: each is
/// found with its own value, and removing one keeps the other.
pub proof fn law_colliding_keys<K, V>(
    t: HashTrie<K, V>,
    both: HashTrie<K, V>,
    no_first: HashTrie<K, V>,
    no_second: HashTrie<K, V>,
    h: crate::chunk::Hash,
    k1: K,
    v1: V,
    k2: K,
    v2: V,
)
    requires
        k1 != k2,
        t.wf(),
        both.wf(),
        no_first.wf(),
        no_second.wf(),
        both@ == t@.insert((h, k1), v1).insert((h, k2), v2),
        no_first@ == both@.remove((h, k1)),
        no_second@ == both@.remove((h, k2)),
    ensures
        lookup(both.root_node(), h as nat, k1) == Ok::<Option<V>, TrieError>(Some(v1)),
        lookup(both.root_node(), h as nat, k2) == Ok::<Option<V>, TrieError>(Some(v2)),
        lookup(no_first.root_node(), h as nat, k1) == Ok::<Option<V>, TrieError>(None),
        lookup(no_first.root_node(), h as nat, k2) == Ok::<Option<V>, TrieError>(Some(v2)),
        lookup(no_second.root_node(), h as nat, k2) == Ok::<Option<V>, TrieError>(None),
        lookup(no_second.root_node(), h as nat, k1) == Ok::<Option<V>, TrieError>(Some(v1)),
{
    both.lemma_lookup_from_root(h, k1);
    both.lemma_lookup_from_root(h, k2);
    no_first.lemma_lookup_from_root(h, k1);
    no_first.lemma_lookup_from_root(h, k2);
    no_second.lemma_lookup_from_root(h, k1);
    no_second.lemma_lookup_from_root(h, k2);
}

/// However full the root branch, a descent from the root finds an entry
/// under a hash below `32` (hash `0` included) exactly as in a trie that
/// holds that entry alone.
pub proof fn law_full_branch<K, V>(full: HashTrie<K, V>, single: HashTrie<K, V>, i: crate::chunk::Hash, k: K)
    requires
        i < 32,
        full.wf(),
        single.wf(),
        full@.contains_key((i, k)),
        single@ == Map::<(crate::chunk::Hash, K), V>::empty().insert((i, k), full@[(i, k)]),
    ensures
        lookup(full.root_node(), i as nat, k) == lookup(single.root_node(), i as nat, k),
        lookup(full.root_node(), i as nat, k) == Ok::<Option<V>, TrieError>(Some(full@[(i, k)])),
{
    full.lemma_lookup_from_root(i, k);
    single.lemma_lookup_from_root(i, k);
}

} // verus!
