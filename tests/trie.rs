use std::rc::Rc;

use hamt::node::{get_at, Node, TrieError};
use hamt::trie::HashTrie;

fn empty_slots() -> Vec<Option<Rc<Node<u64, i32>>>> {
    let mut slots = Vec::new();
    for _ in 0..32 {
        slots.push(None);
    }
    slots
}

fn root_slots<K, V>(t: &HashTrie<K, V>) -> &Vec<Option<Rc<Node<K, V>>>> {
    match t.root() {
        Node::Branch(slots) => slots,
        Node::Leaf(_) => panic!("the root of a trie is a branch"),
    }
}

#[test]
fn explicit_node_creation_and_lookup() {
    let leaf = Rc::new(Node::Leaf(vec![Rc::new((0u64, 1))]));

    let mut level1_map = empty_slots();
    level1_map[1] = Some(leaf);
    let level1 = Rc::new(Node::Branch(level1_map));

    let hash: usize = 0b00001_00010;
    let shifted: usize = hamt::shift_hash(hash);

    assert_eq!(get_at(&level1, shifted, &0), Ok(Some(&1)));

    let mut trie_map = empty_slots();
    trie_map[2] = Some(level1);
    let trie: Node<u64, i32> = Node::Branch(trie_map);

    assert_eq!(get_at(&trie, hash, &0), Ok(Some(&1)));
    assert_eq!(get_at(&trie, 0, &0), Ok(None));
}

#[test]
fn insert_element() {
    let trie: HashTrie<u64, i32> = HashTrie::new();
    let trie2 = trie.insert(100, 100, 1);
    assert_eq!(trie.get(100, &100), None);
    assert_eq!(trie2.get(100, &100), Some(&1));
}

#[test]
fn leaf_reached_too_early_is_a_defect() {
    let leaf = Rc::new(Node::Leaf(vec![Rc::new((0u64, 1))]));
    let mut slots = empty_slots();
    slots[2] = Some(leaf);
    let trie: Node<u64, i32> = Node::Branch(slots);
    assert_eq!(get_at(&trie, 0b00001_00010, &0), Err(TrieError::LeafBeforeHashConsumed));
    assert_eq!(get_at(&trie, 0b00010, &0), Ok(Some(&1)));
    assert_eq!(get_at(&trie, 0b00010, &9), Ok(None));
}

#[test]
fn short_branch_is_a_defect() {
    let trie: Node<u64, i32> = Node::Branch(vec![None, None]);
    assert_eq!(get_at(&trie, 1, &0), Err(TrieError::MalformedBranch));
}

#[test]
fn two_hashes_sharing_the_first_chunk() {
    let trie = HashTrie::new().insert(34, 34u64, 1).insert(66, 66u64, 2);
    assert_eq!(trie.get(34, &34), Some(&1));
    assert_eq!(trie.get(66, &66), Some(&2));
    assert_eq!(trie.get(0, &0), None);
    assert_eq!(trie.get(34, &66), None);
}

#[test]
fn round_trip_from_empty() {
    let trie = HashTrie::new().insert(12345, 7u64, 70);
    assert_eq!(trie.get(12345, &7), Some(&70));
}

#[test]
fn old_version_is_untouched() {
    let t = HashTrie::new().insert(5, 1u64, 10);
    let t2 = t.insert(6, 2, 20);
    assert_eq!(t.get(5, &1), Some(&10));
    assert_eq!(t.get(6, &2), None);
    assert_eq!(t2.get(5, &1), Some(&10));
    assert_eq!(t2.get(6, &2), Some(&20));
}

#[test]
fn overwrite_keeps_the_last_value() {
    let t = HashTrie::new().insert(9, 1u64, 100);
    let twice = t.insert(77, 3, 1).insert(77, 3, 2);
    let once = t.insert(77, 3, 2);
    assert_eq!(twice.get(77, &3), Some(&2));
    assert_eq!(once.get(77, &3), Some(&2));
    assert_eq!(twice.get(9, &1), Some(&100));
}

#[test]
fn remove_after_insert() {
    let t = HashTrie::new().insert(42, 4u64, 40);
    let r = t.remove(42, &4);
    assert_eq!(r.get(42, &4), None);
    assert_eq!(t.get(42, &4), Some(&40));
    assert!(root_slots(&r).iter().all(|s| s.is_none()));
}

#[test]
fn remove_of_absent_key_changes_nothing() {
    let t = HashTrie::new().insert(42, 4u64, 40);
    let r = t.remove(43, &4).remove(42, &5);
    assert_eq!(r.get(42, &4), Some(&40));
}

#[test]
fn untouched_siblings_are_shared() {
    let t = HashTrie::new().insert(1, 1u64, 1).insert(34, 2, 2).insert(3, 3, 3);
    let t2 = t.insert(5, 5, 5);
    let before = root_slots(&t);
    let after = root_slots(&t2);
    for j in 0..32 {
        if j == 5 {
            assert!(before[j].is_none());
            assert!(after[j].is_some());
        } else {
            match (&before[j], &after[j]) {
                (None, None) => {}
                (Some(a), Some(b)) => assert!(Rc::ptr_eq(a, b)),
                _ => panic!("slot {} changed", j),
            }
        }
    }
}

#[test]
fn colliding_keys_live_side_by_side() {
    let t = HashTrie::new().insert(777, 1u64, 10).insert(777, 2, 20);
    assert_eq!(t.get(777, &1), Some(&10));
    assert_eq!(t.get(777, &2), Some(&20));
    let without_one = t.remove(777, &1);
    assert_eq!(without_one.get(777, &1), None);
    assert_eq!(without_one.get(777, &2), Some(&20));
    let without_two = t.remove(777, &2);
    assert_eq!(without_two.get(777, &2), None);
    assert_eq!(without_two.get(777, &1), Some(&10));
}

#[test]
fn hash_zero_and_its_neighbours() {
    let t = HashTrie::new().insert(0, 0u64, 1).insert(32, 32, 2).insert(1024, 1024, 3);
    assert_eq!(t.get(0, &0), Some(&1));
    assert_eq!(t.get(32, &32), Some(&2));
    assert_eq!(t.get(1024, &1024), Some(&3));
    let r = t.remove(0, &0);
    assert_eq!(r.get(0, &0), None);
    assert_eq!(r.get(32, &32), Some(&2));
}

#[test]
fn largest_hash() {
    let t = HashTrie::new().insert(usize::MAX, 1u64, 9);
    assert_eq!(t.get(usize::MAX, &1), Some(&9));
    assert_eq!(t.get(usize::MAX - 1, &1), None);
}

#[test]
fn full_branch_behaves_like_a_sparse_one() {
    let mut t: HashTrie<u64, usize> = HashTrie::new();
    for i in 0..32usize {
        t = t.insert(i, i as u64, i * 10);
    }
    assert!(root_slots(&t).iter().all(|s| s.is_some()));
    for i in 0..32usize {
        assert_eq!(t.get(i, &(i as u64)), Some(&(i * 10)));
    }
    assert_eq!(t.get(32, &32), None);
}

#[test]
fn insert_if_absent_keeps_present_values() {
    let t = HashTrie::new().insert(8, 1u64, 1);
    let kept = t.insert_if_absent(8, 1, 2);
    let added = t.insert_if_absent(8, 2, 3);
    assert_eq!(kept.get(8, &1), Some(&1));
    assert_eq!(added.get(8, &1), Some(&1));
    assert_eq!(added.get(8, &2), Some(&3));
}

#[test]
fn empty_root_has_no_occupied_slot() {
    let t: HashTrie<u64, i32> = HashTrie::new();
    let slots = root_slots(&t);
    assert_eq!(slots.len(), 32);
    assert!(slots.iter().all(|s| s.is_none()));
    assert_eq!(get_at(t.root(), 0, &0), Ok(None));
    assert_eq!(get_at(t.root(), usize::MAX, &0), Ok(None));
}

#[test]
fn descent_from_root_after_two_inserts() {
    let t = HashTrie::new().insert(34, 34u64, 1).insert(66, 66u64, 2);
    assert_eq!(get_at(t.root(), 34, &34), Ok(Some(&1)));
    assert_eq!(get_at(t.root(), 66, &66), Ok(Some(&2)));
    assert_eq!(get_at(t.root(), 0, &0), Ok(None));
}

#[test]
fn descent_from_root_after_remove_and_collision() {
    let t = HashTrie::new().insert(777, 1u64, 10).insert(777, 2, 20);
    assert_eq!(get_at(t.root(), 777, &1), Ok(Some(&10)));
    assert_eq!(get_at(t.root(), 777, &2), Ok(Some(&20)));
    let r = t.remove(777, &1);
    assert_eq!(get_at(r.root(), 777, &1), Ok(None));
    assert_eq!(get_at(r.root(), 777, &2), Ok(Some(&20)));
}

#[test]
fn descent_from_full_root_branch() {
    let mut t: HashTrie<u64, usize> = HashTrie::new();
    for i in 0..32usize {
        t = t.insert(i, i as u64, i + 100);
    }
    for i in 0..32usize {
        assert_eq!(get_at(t.root(), i, &(i as u64)), Ok(Some(&(i + 100))));
        let single = HashTrie::new().insert(i, i as u64, i + 100);
        assert_eq!(get_at(single.root(), i, &(i as u64)), get_at(t.root(), i, &(i as u64)));
    }
}
