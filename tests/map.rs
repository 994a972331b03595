use vec_btree_map::{IterMut, Keys, Values, ValuesMut, VecBTreeMap};

#[test]
fn stays_sorted() {
    let mut map = VecBTreeMap::with_capacity(3);
    map.insert("hi", 1.0);
    map.insert("mid", 5.0);
    map.insert("bye", -7.0);

    assert_eq!(map.as_slice(), &[("bye", -7.0), ("hi", 1.0), ("mid", 5.0)]);
    assert_eq!(map.insert("hi", 10.3), Some(1.0));
    assert_eq!(map.as_slice(), &[("bye", -7.0), ("hi", 10.3), ("mid", 5.0)]);
    assert_eq!(map.remove(&"hi"), Some(10.3));
    assert_eq!(map.as_slice(), &[("bye", -7.0), ("mid", 5.0)]);
}

#[test]
fn search_finds_keys_and_insertion_points() {
    let mut map = VecBTreeMap::with_capacity(3);
    map.insert("a", 1);
    map.insert("c", 2);
    map.insert("d", 3);
    assert_eq!(map.binary_search(&"a"), Ok(0));
    assert_eq!(map.binary_search(&"b"), Err(1));
    assert_eq!(map.binary_search(&"d"), Ok(2));
    assert_eq!(map.binary_search(&"e"), Err(3));
    assert_eq!(map.binary_search(&""), Err(0));
}

#[test]
fn search_on_empty_is_err_zero() {
    let map: VecBTreeMap<u32, u32> = VecBTreeMap::new();
    assert_eq!(map.binary_search(&0), Err(0));
    assert_eq!(map.binary_search(&u32::MAX), Err(0));
}

#[test]
fn pop_and_remove_on_empty_give_none() {
    let mut map: VecBTreeMap<u32, u32> = VecBTreeMap::new();
    assert_eq!(map.pop(), None);
    assert_eq!(map.remove(&7), None);
    assert!(map.is_empty());
}

#[test]
fn insert_twice_keeps_position_and_returns_prior() {
    let mut map = VecBTreeMap::new();
    assert_eq!(map.insert(5u8, 'x'), None);
    map.insert(2u8, 'y');
    map.insert(9u8, 'z');
    assert_eq!(map.binary_search(&5), Ok(1));
    assert_eq!(map.insert(5u8, 'w'), Some('x'));
    assert_eq!(map.binary_search(&5), Ok(1));
    assert_eq!(map.as_slice(), &[(2, 'y'), (5, 'w'), (9, 'z')]);
    assert_eq!(map.len(), 3);
}

#[test]
fn push_appends_only_past_the_last_key() {
    let mut map = VecBTreeMap::new();
    assert_eq!(map.push(3, "c"), None);
    assert_eq!(map.push(7, "g"), None);
    assert_eq!(map.push(7, "again"), Some((7, "again")));
    assert_eq!(map.push(1, "a"), Some((1, "a")));
    assert_eq!(map.as_slice(), &[(3, "c"), (7, "g")]);
    assert_eq!(map.push(8, "h"), None);
    assert_eq!(map.as_slice(), &[(3, "c"), (7, "g"), (8, "h")]);
}

#[test]
fn pop_takes_the_greatest() {
    let mut map = VecBTreeMap::new();
    map.insert(2, 20);
    map.insert(1, 10);
    assert_eq!(map.pop(), Some((2, 20)));
    assert_eq!(map.pop(), Some((1, 10)));
    assert_eq!(map.pop(), None);
}

#[test]
fn remove_missing_changes_nothing() {
    let mut map = VecBTreeMap::new();
    map.insert(1, 'a');
    map.insert(3, 'c');
    assert_eq!(map.remove(&2), None);
    assert_eq!(map.as_slice(), &[(1, 'a'), (3, 'c')]);
    assert_eq!(map.remove(&1), Some('a'));
    assert_eq!(map.as_slice(), &[(3, 'c')]);
}

#[test]
fn clear_empties_the_map() {
    let mut map = VecBTreeMap::with_capacity(4);
    map.insert(1, 1);
    map.insert(2, 2);
    map.clear();
    assert!(map.is_empty());
    assert_eq!(map.len(), 0);
    assert_eq!(map.binary_search(&1), Err(0));
}

#[test]
fn from_entries_matches_inserting_in_turn() {
    let pairs = vec![(4, "d"), (1, "a"), (4, "D"), (3, "c"), (1, "A"), (9, "i")];
    let built = VecBTreeMap::from_entries(pairs.clone());
    let mut inserted = VecBTreeMap::new();
    for (k, v) in pairs {
        inserted.insert(k, v);
    }
    assert_eq!(built.as_slice(), inserted.as_slice());
    assert_eq!(built.as_slice(), &[(1, "A"), (3, "c"), (4, "D"), (9, "i")]);
}

#[test]
fn from_entries_of_sorted_and_reversed_input() {
    let sorted = VecBTreeMap::from_entries(vec![(1, 1), (2, 2), (3, 3)]);
    assert_eq!(sorted.as_slice(), &[(1, 1), (2, 2), (3, 3)]);
    let reversed = VecBTreeMap::from_entries(vec![(3, 3), (2, 2), (1, 1)]);
    assert_eq!(reversed.as_slice(), &[(1, 1), (2, 2), (3, 3)]);
    let empty: VecBTreeMap<u8, u8> = VecBTreeMap::from_entries(Vec::new());
    assert!(empty.is_empty());
}

#[test]
fn positional_access_reads_and_writes_values() {
    let mut map = VecBTreeMap::new();
    map.insert("b", 2);
    map.insert("a", 1);
    assert_eq!(*map.index(0), 1);
    assert_eq!(*map.index(1), 2);
    *map.index_mut(1) += 40;
    assert_eq!(map.as_slice(), &[("a", 1), ("b", 42)]);
    assert_eq!(map.replace_value(0, 7), 1);
    assert_eq!(map.as_slice(), &[("a", 7), ("b", 42)]);
}

#[test]
fn iter_walks_from_both_ends() {
    let mut map = VecBTreeMap::with_capacity(3);
    map.insert("c", 3);
    map.insert("a", 1);
    map.insert("b", 2);
    let mut it = map.iter();
    assert_eq!(it.len(), 3);
    assert_eq!(it.next(), Some((&"a", &1)));
    assert_eq!(it.next_back(), Some((&"c", &3)));
    assert_eq!(it.len(), 1);
    assert_eq!(it.next_back(), Some((&"b", &2)));
    assert_eq!(it.next(), None);
    assert_eq!(it.next_back(), None);
    assert_eq!(it.len(), 0);
}

#[test]
fn keys_and_values_project_entries() {
    let mut map = VecBTreeMap::new();
    map.insert("b", 2);
    map.insert("a", 1);
    map.insert("c", 3);
    let mut keys = map.keys();
    assert_eq!(keys.next(), Some(&"a"));
    assert_eq!(keys.next_back(), Some(&"c"));
    assert_eq!(keys.next(), Some(&"b"));
    assert_eq!(keys.next(), None);
    let mut values = map.values();
    assert_eq!(values.len(), 3);
    assert_eq!(values.next(), Some(&1));
    assert_eq!(values.next(), Some(&2));
    assert_eq!(values.next(), Some(&3));
    assert_eq!(values.next(), None);
    assert_eq!(values.next_back(), None);
}

#[test]
fn views_built_directly_from_entries() {
    let entries = [(1, 'a'), (2, 'b')];
    let mut keys = Keys::new(&entries);
    assert_eq!(keys.next_back(), Some(&2));
    assert_eq!(keys.len(), 1);
    let mut values = Values::new(&entries);
    assert_eq!(values.next_back(), Some(&'b'));
    assert_eq!(values.next_back(), Some(&'a'));
    assert_eq!(values.next_back(), None);
}

#[test]
fn iter_skips_with_nth_from_both_ends() {
    let map = VecBTreeMap::from_entries(vec![(1, 'a'), (2, 'b'), (3, 'c'), (4, 'd'), (5, 'e')]);
    let mut it = map.iter();
    assert_eq!(it.size_hint(), (5, Some(5)));
    assert_eq!(it.nth(1), Some((&2, &'b')));
    assert_eq!(it.nth_back(1), Some((&4, &'d')));
    assert_eq!(it.len(), 1);
    assert_eq!(it.nth(1), None);
    assert_eq!(it.len(), 0);
    assert_eq!(it.next_back(), None);
    assert_eq!(map.iter().count(), 5);
    assert_eq!(map.iter().last(), Some((&5, &'e')));
    let mut back = map.iter();
    assert_eq!(back.nth_back(7), None);
    assert_eq!(back.next(), None);
}

#[test]
fn keys_and_values_skip_count_and_last() {
    let map = VecBTreeMap::from_entries(vec![(30, "x"), (10, "y"), (20, "z")]);
    let mut keys = map.keys();
    assert_eq!(keys.nth(1), Some(&20));
    assert_eq!(keys.nth_back(0), Some(&30));
    assert_eq!(keys.next(), None);
    assert_eq!(map.keys().count(), 3);
    assert_eq!(map.keys().last(), Some(&30));
    let mut values = map.values();
    assert_eq!(values.nth_back(1), Some(&"z"));
    assert_eq!(values.nth(0), Some(&"y"));
    assert_eq!(values.len(), 0);
    assert_eq!(map.values().count(), 3);
    assert_eq!(map.values().last(), Some(&"x"));
    let empty: VecBTreeMap<u8, u8> = VecBTreeMap::new();
    assert_eq!(empty.keys().last(), None);
    assert_eq!(empty.values().last(), None);
    assert_eq!(empty.iter().last(), None);
}

#[test]
fn values_mut_writes_every_value() {
    let mut map = VecBTreeMap::with_capacity(3);
    map.insert("a", 1);
    map.insert("b", 2);
    map.insert("c", 3);
    {
        let mut values = map.values_mut();
        assert_eq!(values.len(), 3);
        while let Some(v) = values.next() {
            *v *= *v;
        }
        assert_eq!(values.next_back(), None);
    }
    let mut values = map.values();
    assert_eq!(values.next(), Some(&1));
    assert_eq!(values.next(), Some(&4));
    assert_eq!(values.next(), Some(&9));
    assert_eq!(values.next(), None);
}

#[test]
fn values_mut_from_the_back() {
    let mut map = VecBTreeMap::new();
    map.insert(1, 10);
    map.insert(2, 20);
    let mut values = map.values_mut();
    if let Some(v) = values.next_back() {
        *v = 0;
    }
    assert_eq!(values.len(), 1);
    assert_eq!(map.as_slice(), &[(1, 10), (2, 0)]);
}

#[test]
fn iter_mut_hands_out_keys_shared_and_values_mutably() {
    let mut entries = [(1, 1), (2, 2), (3, 3)];
    let mut it = IterMut::new(&mut entries);
    assert_eq!(it.len(), 3);
    if let Some((k, v)) = it.next() {
        *v += *k * 100;
    }
    if let Some((k, v)) = it.next_back() {
        *v += *k * 100;
    }
    assert_eq!(it.len(), 1);
    assert_eq!(entries, [(1, 101), (2, 2), (3, 303)]);
    let mut other = [(5, 'q')];
    let mut values = ValuesMut::new(&mut other);
    if let Some(v) = values.next() {
        *v = 'r';
    }
    assert_eq!(values.next(), None);
    assert_eq!(other, [(5, 'r')]);
}

#[test]
fn default_and_clone() {
    let empty: VecBTreeMap<u8, u8> = VecBTreeMap::default();
    assert!(empty.is_empty());
    let mut map = VecBTreeMap::new();
    map.insert(2, "b");
    map.insert(1, "a");
    let copy = map.clone();
    assert_eq!(copy, map);
    assert_eq!(copy.as_slice(), &[(1, "a"), (2, "b")]);
}

#[test]
fn sorted_after_mixed_operations() {
    let mut map = VecBTreeMap::new();
    let ops: Vec<i32> = vec![5, -3, 8, 0, 5, 12, -3, 7];
    for (n, k) in ops.into_iter().enumerate() {
        if let Some((k, v)) = map.push(k, n) {
            map.insert(k, v);
        }
        if n % 3 == 2 {
            map.remove(&0);
        }
    }
    map.pop();
    let keys: Vec<i32> = map.as_slice().iter().map(|e| e.0).collect();
    assert_eq!(keys, vec![-3, 5, 7, 8]);
    for w in map.as_slice().windows(2) {
        assert!(w[0].0 < w[1].0);
    }
}
