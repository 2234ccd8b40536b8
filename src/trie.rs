//! The persistent trie: well-formed shapes and the path-copying updates.

use std::rc::Rc;
use vstd::prelude::*;
use crate::chunk::{branch_index, pow32, shift_hash, BRANCH_SIZE};
use crate::node::{
    leaf_find, leaf_without, lemma_without_key_find, lookup, share, without_key, Node,
};

verus! {

/// Number of branch levels above the leaves: enough to consume every bit of a
/// hash (`32^13 = 2^65`).
pub const HASH_LEVELS: usize = 13;

/// `node` is a well-formed sub-trie at depth `d`: branches down to depth
/// `HASH_LEVELS`, non-empty leaves there, and no empty branch below the root.
pub open spec fn wf_node<K, V>(node: Node<K, V>, d: nat) -> bool
    decreases 13 - d,
{
    match node {
        Node::Leaf(es) => d == 13 && es@.len() > 0,
        Node::Branch(ch) => {
            &&& d < 13
            &&& ch@.len() == 32
            &&& d > 0 ==> exists|i: int| 0 <= i < 32 && (#[trigger] ch@[i]) is Some
            &&& forall|i: int|
                0 <= i < 32 ==> (#[trigger] ch@[i] matches Some(c) ==> wf_node(*c, d + 1))
        },
    }
}

/// The child slots of a branch; empty for a leaf.
pub open spec fn slots_of<K, V>(node: Node<K, V>) -> Seq<Option<Rc<Node<K, V>>>> {
    match node {
        Node::Leaf(_) => Seq::empty(),
        Node::Branch(ch) => ch@,
    }
}

/// The number of hashes a sub-trie at depth `d` distinguishes.
pub open spec fn span(d: nat) -> nat {
    pow32((13 - d) as nat)
}

/// What a descent finds, where an absent sub-trie finds nothing.
pub open spec fn lookup_in<K, V>(node: Option<Node<K, V>>, hash: nat, key: K) -> Result<
    Option<V>,
    crate::node::TrieError,
> {
    match node {
        None => Ok(None),
        Some(n) => lookup(n, hash, key),
    }
}

proof fn lemma_span_step(d: nat, h: nat)
    requires
        d < 13,
        h < span(d),
    ensures
        span(d) == 32 * span(d + 1),
        h / 32 < span(d + 1),
{
    assert(span(d) == 32 * span(d + 1));
    let p = span(d + 1) as int;
    assert(h / 32 < p) by (nonlinear_arith)
        requires
            h < 32 * p,
    ;
}

proof fn lemma_same_hash(a: nat, b: nat)
    ensures
        a == b <==> (a % 32 == b % 32 && a / 32 == b / 32),
{
}

/// Every hash of the machine lies below the span of the root.
pub proof fn lemma_hash_in_span(h: crate::chunk::Hash)
    ensures
        (h as nat) < span(0),
{
    reveal_with_fuel(pow32, 14);
    assert(span(0) == 36893488147419103232nat);
    assert(h as nat <= usize::MAX);
}

/// The node held by an occupied slot.
spec fn slot_node<K, V>(slot: Option<Rc<Node<K, V>>>) -> Node<K, V> {
    *slot->Some_0
}

/// A well-formed sub-trie never meets a defect on a hash within its span.
pub proof fn lemma_wf_lookup_ok<K, V>(node: Node<K, V>, d: nat, h: nat, k: K)
    requires
        wf_node(node, d),
        h < span(d),
    ensures
        lookup(node, h, k) is Ok,
    decreases 13 - d,
{
    match node {
        Node::Leaf(es) => {
            assert(span(13) == 1);
        },
        Node::Branch(ch) => {
            lemma_span_step(d, h);
            let j = (h % 32) as int;
            if ch@[j] is Some {
                lemma_wf_lookup_ok(slot_node(ch@[j]), d + 1, h / 32, k);
            }
        },
    }
}

fn empty_slots<K, V>() -> (r: Vec<Option<Rc<Node<K, V>>>>)
    ensures
        r@.len() == 32,
        forall|i: int| 0 <= i < 32 ==> (#[trigger] r@[i]) is None,
{
    let mut r: Vec<Option<Rc<Node<K, V>>>> = Vec::new();
    let mut i: usize = 0;
    while i < BRANCH_SIZE
        invariant
            i <= 32,
            r@.len() == i,
            forall|j: int| 0 <= j < i ==> (#[trigger] r@[j]) is None,
        decreases 32 - i,
    {
        r.push(None);
        i = i + 1;
    }
    r
}

fn copy_slots<K, V>(ch: &Vec<Option<Rc<Node<K, V>>>>) -> (r: Vec<Option<Rc<Node<K, V>>>>)
    ensures
        r@ == ch@,
{
    let mut r: Vec<Option<Rc<Node<K, V>>>> = Vec::new();
    let mut i: usize = 0;
    while i < ch.len()
        invariant
            i <= ch@.len(),
            r@ == ch@.take(i as int),
        decreases ch@.len() - i,
    {
        let slot = match &ch[i] {
            None => None,
            Some(c) => Some(share(c)),
        };
        r.push(slot);
        assert(ch@.take(i + 1) =~= ch@.take(i as int).push(ch@[i as int]));
        i = i + 1;
    }
    assert(ch@.take(ch@.len() as int) =~= ch@);
    r
}

/// A sub-trie at depth `d` that holds one entry and nothing else.
fn fresh_path<K, V>(d: usize, hash: crate::chunk::Hash, key: K, value: V) -> (r: Node<K, V>)
    requires
        d <= 13,
        (hash as nat) < span(d as nat),
    ensures
        wf_node(r, d as nat),
        forall|h2: nat, k2: K|
            h2 < span(d as nat) ==> #[trigger] lookup(r, h2, k2) == if h2 == hash && k2 == key {
                Ok::<Option<V>, crate::node::TrieError>(Some(value))
            } else {
                Ok(None)
            },
    decreases 13 - d,
{
    if d == HASH_LEVELS {
        let mut es: Vec<Rc<(K, V)>> = Vec::new();
        es.push(Rc::new((key, value)));
        assert(es@.drop_last().len() == 0);
        let r = Node::Leaf(es);
        assert forall|h2: nat, k2: K| h2 < span(d as nat) implies #[trigger] lookup(r, h2, k2) == if h2 == hash && k2 == key {
            Ok::<Option<V>, crate::node::TrieError>(Some(value))
        } else {
            Ok(None)
        } by {
            assert(span(13) == 1);
            assert(lookup(r, h2, k2) == Ok::<Option<V>, crate::node::TrieError>(leaf_find(es@, k2)));
            assert(leaf_find(es@.drop_last(), k2) is None);
        }
        r
    } else {
        let i = branch_index(hash);
        let h = shift_hash(hash);
        proof {
            lemma_span_step(d as nat, hash as nat);
        }
        let child = fresh_path(d + 1, h, key, value);
        let mut slots = empty_slots();
        slots.set(i, Some(Rc::new(child)));
        let r = Node::Branch(slots);
        assert(slots@[i as int] is Some);
        assert forall|h2: nat, k2: K| h2 < span(d as nat) implies #[trigger] lookup(r, h2, k2) == if h2 == hash && k2 == key {
            Ok::<Option<V>, crate::node::TrieError>(Some(value))
        } else {
            Ok(None)
        } by {
            lemma_span_step(d as nat, h2);
            lemma_same_hash(h2, hash as nat);
            if h2 % 32 == i {
                assert(slots@[(h2 % 32) as int] == Some(Rc::new(child)));
                assert(lookup(r, h2, k2) == lookup(child, h2 / 32, k2));
            } else {
                assert(slots@[(h2 % 32) as int] is None);
            }
        }
        r
    }
}

/// The sub-trie `node` at depth `d` with the entry of `key` under `hash` set to `value`.
fn insert_at<K: PartialEq, V>(node: &Node<K, V>, d: usize, hash: crate::chunk::Hash, key: K, value: V) -> (r: Node<K, V>)
    requires
        vstd::laws_eq::obeys_concrete_eq::<K>(),
        d <= 13,
        wf_node(*node, d as nat),
        (hash as nat) < span(d as nat),
    ensures
        wf_node(r, d as nat),
        forall|h2: nat, k2: K|
            h2 < span(d as nat) ==> #[trigger] lookup(r, h2, k2) == if h2 == hash && k2 == key {
                Ok(Some(value))
            } else {
                lookup(*node, h2, k2)
            },
        d < 13 ==> slots_of(r).len() == 32,
        forall|j: int|
            0 <= j < slots_of(*node).len() && j != hash % 32 ==> #[trigger] slots_of(r)[j] == slots_of(*node)[j],
    decreases 13 - d,
{
    match node {
        Node::Leaf(es) => {
            let mut out = leaf_without(es, &key);
            out.push(Rc::new((key, value)));
            let r = Node::Leaf(out);
            assert forall|h2: nat, k2: K| h2 < span(d as nat) implies #[trigger] lookup(r, h2, k2) == if h2 == hash && k2 == key {
                Ok(Some(value))
            } else {
                lookup(*node, h2, k2)
            } by {
                assert(span(13) == 1);
                lemma_without_key_find(es@, key, k2);
                assert(out@.drop_last() == without_key(es@, key));
            }
            r
        },
        Node::Branch(ch) => {
            let i = branch_index(hash);
            let h = shift_hash(hash);
            proof {
                lemma_span_step(d as nat, hash as nat);
            }
            let child = match &ch[i] {
                None => fresh_path(d + 1, h, key, value),
                Some(c) => insert_at(&**c, d + 1, h, key, value),
            };
            let mut slots = copy_slots(ch);
            slots.set(i, Some(Rc::new(child)));
            let r = Node::Branch(slots);
            assert(slots@[i as int] is Some);
            assert forall|h2: nat, k2: K| h2 < span(d as nat) implies #[trigger] lookup(r, h2, k2) == if h2 == hash && k2 == key {
                Ok(Some(value))
            } else {
                lookup(*node, h2, k2)
            } by {
                lemma_span_step(d as nat, h2);
                lemma_same_hash(h2, hash as nat);
                if h2 % 32 == i {
                    assert(slots@[(h2 % 32) as int] == Some(Rc::new(child)));
                    assert(lookup(r, h2, k2) == lookup(child, h2 / 32, k2));
                } else {
                    assert(slots@[(h2 % 32) as int] == ch@[(h2 % 32) as int]);
                }
            }
            r
        },
    }
}

fn all_empty<K, V>(slots: &Vec<Option<Rc<Node<K, V>>>>) -> (r: bool)
    ensures
        r == forall|i: int| 0 <= i < slots@.len() ==> (#[trigger] slots@[i]) is None,
{
    let mut i: usize = 0;
    while i < slots.len()
        invariant
            i <= slots@.len(),
            forall|j: int| 0 <= j < i ==> (#[trigger] slots@[j]) is None,
        decreases slots@.len() - i,
    {
        if slots[i].is_some() {
            return false;
        }
        i = i + 1;
    }
    true
}

/// The sub-trie `node` at depth `d` without the entry of `key` under `hash`;
/// `None` where nothing would be left below the root.
fn remove_at<K: PartialEq, V>(node: &Node<K, V>, d: usize, hash: crate::chunk::Hash, key: &K) -> (r: Option<Node<K, V>>)
    requires
        vstd::laws_eq::obeys_concrete_eq::<K>(),
        d <= 13,
        wf_node(*node, d as nat),
        (hash as nat) < span(d as nat),
    ensures
        r matches Some(n) ==> wf_node(n, d as nat),
        d == 0 ==> r is Some,
        forall|h2: nat, k2: K|
            h2 < span(d as nat) ==> #[trigger] lookup_in(r, h2, k2) == if h2 == hash && k2 == *key {
                Ok(None)
            } else {
                lookup(*node, h2, k2)
            },
    decreases 13 - d,
{
    match node {
        Node::Leaf(es) => {
            let out = leaf_without(es, key);
            let r = if out.len() == 0 {
                None
            } else {
                Some(Node::Leaf(out))
            };
            assert forall|h2: nat, k2: K| h2 < span(d as nat) implies #[trigger] lookup_in(r, h2, k2) == if h2 == hash && k2 == *key {
                Ok(None)
            } else {
                lookup(*node, h2, k2)
            } by {
                assert(span(13) == 1);
                lemma_without_key_find(es@, *key, k2);
            }
            r
        },
        Node::Branch(ch) => {
            let i = branch_index(hash);
            let h = shift_hash(hash);
            proof {
                lemma_span_step(d as nat, hash as nat);
            }
            let mut slots = copy_slots(ch);
            let sub: Option<Node<K, V>> = match &ch[i] {
                None => None,
                Some(c) => remove_at(&**c, d + 1, h, key),
            };
            let slot = match sub {
                None => None,
                Some(n) => Some(Rc::new(n)),
            };
            slots.set(i, slot);
            let pruned = d > 0 && all_empty(&slots);
            let r = if pruned {
                None
            } else {
                Some(Node::Branch(slots))
            };
            assert forall|h2: nat, k2: K| h2 < span(d as nat) implies #[trigger] lookup_in(r, h2, k2) == if h2 == hash && k2 == *key {
                Ok(None)
            } else {
                lookup(*node, h2, k2)
            } by {
                lemma_span_step(d as nat, h2);
                lemma_same_hash(h2, hash as nat);
                let j = (h2 % 32) as int;
                if j == i {
                    assert(lookup_in(r, h2, k2) == lookup_in(sub, h2 / 32, k2) || pruned);
                } else {
                    assert(slots@[j] == ch@[j]);
                }
                if pruned {
                    assert(slots@[j] is None);
                }
            }
            if !pruned {
                assert(wf_node(Node::Branch(slots), d as nat)) by {
                    if d > 0 {
                        let w = choose|w: int| 0 <= w < 32 && slots@[w] is Some;
                        assert(slots@[w] is Some);
                    }
                }
            }
            r
        },
    }
}

/// A version of the trie: a root branch whose sub-tries may be shared with
/// other versions. A version is never changed once built.
pub struct HashTrie<K, V> {
    root: Node<K, V>,
}

impl<K, V> HashTrie<K, V> {
    /// The root is a well-formed branch.
    pub closed spec fn wf(&self) -> bool {
        wf_node(self.root, 0)
    }

    /// The root node.
    pub closed spec fn root_node(&self) -> Node<K, V> {
        self.root
    }

    /// The entries of the trie, keyed by hash and key.
    pub closed spec fn view(&self) -> Map<(crate::chunk::Hash, K), V> {
        Map::new(
            |p: (crate::chunk::Hash, K)| lookup(self.root, p.0 as nat, p.1) matches Ok(Some(_)),
            |p: (crate::chunk::Hash, K)|
                match lookup(self.root, p.0 as nat, p.1) {
                    Ok(Some(v)) => v,
                    _ => arbitrary(),
                },
        )
    }

    /// A descent from the root of a well-formed trie finds exactly the
    /// trie's entries, and never meets a defect.
    pub proof fn lemma_lookup_from_root(&self, h: crate::chunk::Hash, k: K)
        requires
            self.wf(),
        ensures
            lookup(self.root_node(), h as nat, k) == if self@.contains_key((h, k)) {
                Ok::<Option<V>, crate::node::TrieError>(Some(self@[(h, k)]))
            } else {
                Ok(None)
            },
    {
        lemma_hash_in_span(h);
        lemma_wf_lookup_ok(self.root, 0, h as nat, k);
    }

    /// The empty trie: a root branch with every slot empty.
    pub fn new() -> (r: HashTrie<K, V>)
        ensures
            r.wf(),
            r@ == Map::<(crate::chunk::Hash, K), V>::empty(),
            r.root_node() is Branch,
            slots_of(r.root_node()).len() == 32,
            forall|j: int| 0 <= j < 32 ==> (#[trigger] slots_of(r.root_node())[j]) is None,
            forall|h: crate::chunk::Hash, k: K|
                #[trigger] lookup(r.root_node(), h as nat, k) == Ok::<Option<V>, crate::node::TrieError>(None),
    {
        let r = HashTrie { root: Node::Branch(empty_slots()) };
        assert(r@ =~= Map::<(crate::chunk::Hash, K), V>::empty());
        r
    }

    /// The root node, for inspecting how versions share sub-tries.
    pub fn root(&self) -> (r: &Node<K, V>)
        ensures
            *r == self.root_node(),
            self.wf() ==> forall|h: crate::chunk::Hash, k: K|
                #[trigger] lookup(*r, h as nat, k) == if self@.contains_key((h, k)) {
                    Ok::<Option<V>, crate::node::TrieError>(Some(self@[(h, k)]))
                } else {
                    Ok(None)
                },
    {
        proof {
            if self.wf() {
                assert forall|h: crate::chunk::Hash, k: K|
                    #[trigger] lookup(self.root, h as nat, k) == if self@.contains_key((h, k)) {
                        Ok::<Option<V>, crate::node::TrieError>(Some(self@[(h, k)]))
                    } else {
                        Ok(None)
                    } by {
                    self.lemma_lookup_from_root(h, k);
                }
            }
        }
        &self.root
    }

    /// The value stored for `key` under `hash`, if any.
    pub fn get(&self, hash: crate::chunk::Hash, key: &K) -> (r: Option<&V>)
        where
            K: PartialEq,
        requires
            vstd::laws_eq::obeys_concrete_eq::<K>(),
            self.wf(),
        ensures
            r is Some <==> self@.contains_key((hash, *key)),
            r matches Some(v) ==> self@[(hash, *key)] == *v,
    {
        proof {
            self.lemma_lookup_from_root(hash, *key);
        }
        match crate::node::get_at(&self.root, hash, key) {
            Ok(found) => found,
            Err(_) => {
                assert(false);
                None
            },
        }
    }

    /// A new version in which `key` under `hash` maps to `value`, replacing any
    /// earlier value of that key; `self` is left as it was. Only the path to
    /// the entry is rebuilt: every other sub-trie is shared with `self`.
    pub fn insert(&self, hash: crate::chunk::Hash, key: K, value: V) -> (r: HashTrie<K, V>)
        where
            K: PartialEq,
        requires
            vstd::laws_eq::obeys_concrete_eq::<K>(),
            self.wf(),
        ensures
            r.wf(),
            r@ == self@.insert((hash, key), value),
            slots_of(r.root_node()).len() == 32,
            forall|j: int|
                0 <= j < 32 && j != hash % 32 ==> #[trigger] slots_of(r.root_node())[j] == slots_of(
                    self.root_node(),
                )[j],
    {
        proof {
            lemma_hash_in_span(hash);
        }
        let root = insert_at(&self.root, 0, hash, key, value);
        let r = HashTrie { root };
        assert forall|p: (crate::chunk::Hash, K)| #[trigger] lookup(r.root, p.0 as nat, p.1) == if p == (hash, key) {
            Ok(Some(value))
        } else {
            lookup(self.root, p.0 as nat, p.1)
        } by {
            lemma_hash_in_span(p.0);
        }
        assert(r@ =~= self@.insert((hash, key), value));
        r
    }

    /// A new version without the entry of `key` under `hash`; `self` is left
    /// as it was. Branches left empty are pruned; an absent key changes nothing.
    pub fn remove(&self, hash: crate::chunk::Hash, key: &K) -> (r: HashTrie<K, V>)
        where
            K: PartialEq,
        requires
            vstd::laws_eq::obeys_concrete_eq::<K>(),
            self.wf(),
        ensures
            r.wf(),
            r@ == self@.remove((hash, *key)),
    {
        proof {
            lemma_hash_in_span(hash);
        }
        match remove_at(&self.root, 0, hash, key) {
            Some(root) => {
                let r = HashTrie { root };
                assert forall|p: (crate::chunk::Hash, K)| #[trigger] lookup(r.root, p.0 as nat, p.1) == if p == (hash, *key) {
                    Ok(None)
                } else {
                    lookup(self.root, p.0 as nat, p.1)
                } by {
                    lemma_hash_in_span(p.0);
                    assert(lookup_in(Some(root), p.0 as nat, p.1) == lookup(root, p.0 as nat, p.1));
                }
                assert(r@ =~= self@.remove((hash, *key)));
                r
            },
            None => HashTrie::new(),
        }
    }

    /// A new version in which `key` under `hash` maps to `value` only where
    /// the key was absent; a present key keeps its value.
    pub fn insert_if_absent(&self, hash: crate::chunk::Hash, key: K, value: V) -> (r: HashTrie<K, V>)
        where
            K: PartialEq,
        requires
            vstd::laws_eq::obeys_concrete_eq::<K>(),
            self.wf(),
        ensures
            r.wf(),
            r@ == if self@.contains_key((hash, key)) {
                self@
            } else {
                self@.insert((hash, key), value)
            },
    {
        if self.get(hash, &key).is_some() {
            self.share_version()
        } else {
            self.insert(hash, key, value)
        }
    }

    /// Another handle on this version, sharing every sub-trie.
    fn share_version(&self) -> (r: HashTrie<K, V>)
        requires
            self.wf(),
        ensures
            r.wf(),
            r@ == self@,
    {
        match &self.root {
            Node::Branch(ch) => {
                let r = HashTrie { root: Node::Branch(copy_slots(ch)) };
                assert forall|p: (crate::chunk::Hash, K)| #[trigger] lookup(r.root, p.0 as nat, p.1) == lookup(
                    self.root,
                    p.0 as nat,
                    p.1,
                ) by {}
                assert(r@ =~= self@);
                r
            },
            Node::Leaf(_) => HashTrie::new(),
        }
    }
}

} // verus!
