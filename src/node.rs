//! Trie nodes, the lookup they describe, and the read-only descent.

use std::rc::Rc;
use vstd::prelude::*;
use crate::chunk::{branch_index, shift_hash, BRANCH_SIZE};

verus! {

broadcast use {
    vstd::std_specs::vec::axiom_vec_decreases_to_view,
    vstd::seq::axiom_seq_index_decreases,
};

/// A node of the trie.
///
/// A `Leaf` sits where the hash has been fully consumed and holds the entries
/// (key and value) whose hashes lead there; more than one entry means that
/// distinct keys share a full hash. A `Branch` has `BRANCH_SIZE` child slots,
/// each empty or a shared reference to a child node.
pub enum Node<K, V> {
    Leaf(Vec<Rc<(K, V)>>),
    Branch(Vec<Option<Rc<Node<K, V>>>>),
}

/// Why a descent could not be completed.
#[derive(Debug, PartialEq, Eq, Clone, Copy)]
pub enum TrieError {
    /// A leaf was reached while hash bits remained to be consumed.
    LeafBeforeHashConsumed,
    /// A branch does not have `BRANCH_SIZE` slots.
    MalformedBranch,
}

/// The value of the last entry with key `key` in `es`.
pub open spec fn leaf_find<K, V>(es: Seq<Rc<(K, V)>>, key: K) -> Option<V>
    decreases es.len(),
{
    if es.len() == 0 {
        None
    } else if es.last().0 == key {
        Some(es.last().1)
    } else {
        leaf_find(es.drop_last(), key)
    }
}

/// What a descent from `node` with remaining hash `hash` finds for `key`:
/// `Ok(None)` when no entry is there, `Err` when the descent meets a defect.
pub open spec fn lookup<K, V>(node: Node<K, V>, hash: nat, key: K) -> Result<Option<V>, TrieError>
    decreases node,
{
    match node {
        Node::Leaf(es) => {
            if hash == 0 {
                Ok(leaf_find(es@, key))
            } else {
                Err(TrieError::LeafBeforeHashConsumed)
            }
        },
        Node::Branch(ch) => {
            if ch@.len() != 32 {
                Err(TrieError::MalformedBranch)
            } else {
                match ch@[(hash % 32) as int] {
                    None => Ok(None),
                    Some(c) => lookup(*c, hash / 32, key),
                }
            }
        },
    }
}

/// Relies on `Rc::clone`: the new handle points to the same allocation, so it
/// stands for the same value.
#[verifier::external_body]
pub(crate) fn share<T>(r: &Rc<T>) -> (res: Rc<T>)
    ensures
        res == *r,
{
    Rc::clone(r)
}

/// Descends from `node` along the chunks of `hash` and returns the value stored
/// for `key`, `None` when there is none, or the defect met on the way.
pub fn get_at<'a, K: PartialEq, V>(node: &'a Node<K, V>, hash: crate::chunk::Hash, key: &K) -> (r: Result<Option<&'a V>, TrieError>)
    requires
        vstd::laws_eq::obeys_concrete_eq::<K>(),
    ensures
        r is Err <==> lookup(*node, hash as nat, *key) is Err,
        r matches Err(e) ==> lookup(*node, hash as nat, *key) == Err::<Option<V>, TrieError>(e),
        r matches Ok(Some(v)) ==> lookup(*node, hash as nat, *key) == Ok::<Option<V>, TrieError>(Some(*v)),
        r matches Ok(None) ==> lookup(*node, hash as nat, *key) == Ok::<Option<V>, TrieError>(None),
    decreases *node,
{
    match node {
        Node::Leaf(es) => {
            if hash == 0 {
                Ok(leaf_get(es, key))
            } else {
                Err(TrieError::LeafBeforeHashConsumed)
            }
        },
        Node::Branch(children) => {
            if children.len() != BRANCH_SIZE {
                return Err(TrieError::MalformedBranch);
            }
            let i = branch_index(hash);
            match &children[i] {
                None => Ok(None),
                Some(child) => {
                    let h = shift_hash(hash);
                    proof {
                        assert(decreases_to!(*node => children@[i as int]));
                    }
                    get_at(&**child, h, key)
                },
            }
        },
    }
}

/// The value of the last entry with key `key` in `es`.
pub fn leaf_get<'a, K: PartialEq, V>(es: &'a Vec<Rc<(K, V)>>, key: &K) -> (r: Option<&'a V>)
    requires
        vstd::laws_eq::obeys_concrete_eq::<K>(),
    ensures
        r is Some <==> leaf_find(es@, *key) is Some,
        r matches Some(v) ==> leaf_find(es@, *key) == Some(*v),
{
    proof {
        reveal(vstd::laws_eq::obeys_concrete_eq);
    }
    let mut i: usize = es.len();
    assert(es@.take(i as int) =~= es@);
    while i > 0
        invariant
            i <= es@.len(),
            vstd::laws_eq::obeys_concrete_eq::<K>(),
            leaf_find(es@, *key) == leaf_find(es@.take(i as int), *key),
        decreases i,
    {
        let e: &(K, V) = &*es[i - 1];
        let same = e.0 == *key;
        proof {
            reveal(vstd::laws_eq::obeys_concrete_eq);
            assert(es@.take(i as int).drop_last() =~= es@.take(i - 1));
        }
        if same {
            return Some(&e.1);
        }
        i = i - 1;
    }
    None
}

/// The entries of `es` whose key is not `key`, in their order.
pub open spec fn without_key<K, V>(es: Seq<Rc<(K, V)>>, key: K) -> Seq<Rc<(K, V)>>
    decreases es.len(),
{
    if es.len() == 0 {
        es
    } else if es.last().0 == key {
        without_key(es.drop_last(), key)
    } else {
        without_key(es.drop_last(), key).push(es.last())
    }
}

/// Dropping the entries of `key` forgets that key and keeps every other one.
pub proof fn lemma_without_key_find<K, V>(es: Seq<Rc<(K, V)>>, key: K, other: K)
    ensures
        leaf_find(without_key(es, key), other) == if other == key {
            None
        } else {
            leaf_find(es, other)
        },
    decreases es.len(),
{
    if es.len() > 0 {
        lemma_without_key_find(es.drop_last(), key, other);
        let w = without_key(es.drop_last(), key);
        assert(w.push(es.last()).drop_last() =~= w);
    }
}

/// A copy of `es` without the entries whose key is `key`; the kept entries
/// are shared, not cloned.
pub fn leaf_without<K: PartialEq, V>(es: &Vec<Rc<(K, V)>>, key: &K) -> (r: Vec<Rc<(K, V)>>)
    requires
        vstd::laws_eq::obeys_concrete_eq::<K>(),
    ensures
        r@ == without_key(es@, *key),
{
    let mut out: Vec<Rc<(K, V)>> = Vec::new();
    let mut i: usize = 0;
    while i < es.len()
        invariant
            i <= es@.len(),
            vstd::laws_eq::obeys_concrete_eq::<K>(),
            out@ == without_key(es@.take(i as int), *key),
        decreases es@.len() - i,
    {
        let e: &Rc<(K, V)> = &es[i];
        let same = e.0 == *key;
        proof {
            reveal(vstd::laws_eq::obeys_concrete_eq);
            assert(es@.take(i + 1).drop_last() =~= es@.take(i as int));
        }
        if !same {
            out.push(share(e));
        }
        i = i + 1;
    }
    assert(es@.take(es@.len() as int) =~= es@);
    out
}

} // verus!
