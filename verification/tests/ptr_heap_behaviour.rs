use addressable_pairing_heap::ptr_heap::{DefaultPairingHeap, Error, Handle, PairingHeap};
use rand::rngs::StdRng;
use rand::{RngExt, SeedableRng};

fn keys_of(live: &[(Handle, i64, u32)]) -> Option<i64> {
    live.iter().map(|entry| entry.1).min()
}

#[test]
fn ptr_heap_new_is_empty() {
    let ph = PairingHeap::<u8, u8>::new();
    assert_eq!(ph.len(), 0);
    assert!(ph.is_empty());
    assert_eq!(ph.peek(), None);
    assert_eq!(ph.values().count(), 0);
}

#[test]
fn ptr_heap_len_counts_live_handles() {
    let mut ph = PairingHeap::new();
    let mut handles = Vec::new();
    for i in 0..10 {
        handles.push(ph.push(i, 100 - i));
        assert_eq!(ph.len(), i as usize + 1);
        assert!(!ph.is_empty());
    }
    assert_eq!(Ok(()), ph.decrease_key(handles[0], -1));
    assert_eq!(ph.len(), 10);
    assert_eq!(Err(Error::DecreaseKeyOutOfOrder), ph.decrease_key(handles[1], 1000));
    assert_eq!(ph.len(), 10);
    for left in (0..10).rev() {
        assert!(ph.pop().is_some());
        assert_eq!(ph.len(), left);
    }
    assert!(ph.is_empty());
    assert_eq!(ph.pop(), None);
    assert_eq!(ph.len(), 0);
}

#[test]
fn ptr_heap_push_then_pop_on_empty() {
    let mut ph = PairingHeap::new();
    let h = ph.push("only", 7u64);
    assert_eq!(ph.get(h), Some(&"only"));
    assert_eq!(ph.pop(), Some("only"));
    assert_eq!(ph.get(h), None);
    assert_eq!(ph.pop(), None);
    assert!(ph.is_empty());
}

#[test]
fn ptr_heap_peek_shows_least_key() {
    let mut ph = PairingHeap::new();
    assert_eq!(ph.peek(), None);
    ph.push('x', 5);
    assert_eq!(ph.peek(), Some(&'x'));
    ph.push('y', 9);
    assert_eq!(ph.peek(), Some(&'x'));
    ph.push('z', 2);
    assert_eq!(ph.peek(), Some(&'z'));
    assert_eq!(ph.peek_unchecked(), &'z');
    assert_eq!(ph.pop(), Some('z'));
    assert_eq!(ph.peek(), Some(&'x'));
    assert_eq!(ph.pop(), Some('x'));
    assert_eq!(ph.peek(), Some(&'y'));
    assert_eq!(ph.pop(), Some('y'));
    assert_eq!(ph.peek(), None);
}

#[test]
fn ptr_heap_handles_stay_valid_until_popped() {
    let mut ph = PairingHeap::new();
    let keys = [40, 10, 30, 20, 50, 0, 60];
    let mut handles = Vec::new();
    for (i, key) in keys.iter().enumerate() {
        handles.push(ph.push(i, *key));
    }
    // popped in the order of the keys: 5, 1, 3, 2, 0, 4, 6
    let order = [5usize, 1, 3, 2, 0, 4, 6];
    for (round, popped) in order.iter().enumerate() {
        for later in &order[round..] {
            assert_eq!(ph.get(handles[*later]), Some(later));
            assert_eq!(ph[handles[*later]], *later);
        }
        assert_eq!(ph.pop(), Some(*popped));
        assert_eq!(ph.get(handles[*popped]), None);
    }
}

#[test]
fn ptr_heap_handles_are_reused_without_confusion() {
    let mut ph = PairingHeap::new();
    let a = ph.push('a', 5);
    let b = ph.push('b', 1);
    let c = ph.push('c', 3);
    assert_eq!(ph.pop(), Some('b'));
    assert_eq!(ph.get(b), None);
    assert_eq!(ph.get(a), Some(&'a'));
    assert_eq!(ph.get(c), Some(&'c'));
    // the freed handle may be handed out again, the live ones may not
    let d = ph.push('d', 4);
    assert_ne!(d, a);
    assert_ne!(d, c);
    assert_eq!(ph.get(d), Some(&'d'));
    assert_eq!(ph.get(a), Some(&'a'));
    assert_eq!(ph.get(c), Some(&'c'));
    assert_eq!(ph.len(), 3);
    assert_eq!(ph.pop(), Some('c'));
    assert_eq!(ph.get(c), None);
    assert_eq!(ph.get(d), Some(&'d'));
    let e = ph.push('e', 0);
    let f = ph.push('f', 9);
    assert_ne!(e, f);
    assert_ne!(e, a);
    assert_ne!(e, d);
    assert_ne!(f, a);
    assert_ne!(f, d);
    assert_eq!(ph.get(e), Some(&'e'));
    assert_eq!(ph.get(f), Some(&'f'));
    assert_eq!(ph.pop(), Some('e'));
    assert_eq!(ph.pop(), Some('d'));
    assert_eq!(ph.pop(), Some('a'));
    assert_eq!(ph.pop(), Some('f'));
    assert_eq!(ph.pop(), None);
}

#[test]
fn ptr_heap_decrease_key_then_peek() {
    let mut ph = PairingHeap::new();
    let mut handles = Vec::new();
    for i in 0..20i64 {
        handles.push(ph.push(i, 1000 + 2 * i));
    }
    // make the forest deeper than a list of roots
    assert_eq!(ph.pop(), Some(0));
    assert_eq!(ph.pop(), Some(1));
    // a key that stays above the minimum
    assert_eq!(Ok(()), ph.decrease_key(handles[17], 1021));
    assert_eq!(ph.peek(), Some(&2));
    // keys below the minimum, of children and of roots alike
    let mut least = 1004;
    for i in [19usize, 5, 12, 2, 8, 3] {
        least -= 10;
        assert_eq!(Ok(()), ph.decrease_key(handles[i], least));
        assert_eq!(ph.peek(), Some(&(i as i64)));
    }
    let drained = ph.drain_min().collect();
    assert_eq!(
        drained,
        vec![3, 8, 2, 12, 5, 19, 4, 6, 7, 9, 10, 17, 11, 13, 14, 15, 16, 18]
    );
}

#[test]
fn ptr_heap_decrease_key_out_of_order_changes_nothing() {
    let mut ph = PairingHeap::new();
    let a = ph.push('a', 10);
    let b = ph.push('b', 20);
    let c = ph.push('c', 30);
    assert_eq!(ph.pop(), Some('a'));
    assert_eq!(ph.get(a), None);
    // a greater key
    assert_eq!(Err(Error::DecreaseKeyOutOfOrder), ph.decrease_key(c, 31));
    // the same key
    assert_eq!(Err(Error::DecreaseKeyOutOfOrder), ph.decrease_key(c, 30));
    assert_eq!(Err(Error::DecreaseKeyOutOfOrder), ph.decrease_key(b, 20));
    assert_eq!(ph.peek(), Some(&'b'));
    assert_eq!(ph.len(), 2);
    // the key has stayed what it was
    assert_eq!(Ok(()), ph.decrease_key(c, 21));
    assert_eq!(ph.peek(), Some(&'b'));
    assert_eq!(Ok(()), ph.decrease_key(c, 19));
    assert_eq!(ph.peek(), Some(&'c'));
    assert_eq!(ph.len(), 2);
}

#[test]
fn ptr_heap_equal_keys_all_come_out() {
    let mut ph = PairingHeap::new();
    for i in 0..9 {
        ph.push(i, 1);
    }
    let first = ph.push(9, 0);
    assert_eq!(ph.peek(), Some(&9));
    assert_eq!(ph.pop(), Some(9));
    assert_eq!(ph.get(first), None);
    let mut seen = Vec::new();
    while let Some(elem) = ph.pop() {
        assert_eq!(ph.len(), 8 - seen.len());
        if let Some(next) = ph.peek() {
            assert!(!seen.contains(next));
            assert_ne!(*next, elem);
        }
        seen.push(elem);
    }
    seen.sort();
    assert_eq!(seen, vec![0, 1, 2, 3, 4, 5, 6, 7, 8]);
}

#[test]
fn ptr_heap_values_visit_each_element_once() {
    let mut ph = PairingHeap::new();
    for i in 0..30u32 {
        ph.push(i, (i * 7) % 11);
    }
    for _ in 0..10 {
        ph.pop();
    }
    for i in 30..35u32 {
        ph.push(i, i);
    }
    let mut expected = Vec::new();
    let mut copy = ph.clone();
    while let Some(elem) = copy.pop() {
        expected.push(elem);
    }
    expected.sort();
    let mut values = ph.values();
    let mut visited = Vec::new();
    while let Some(elem) = values.next() {
        visited.push(*elem);
    }
    assert_eq!(values.next(), None);
    assert_eq!(values.count(), 0);
    assert_eq!(visited.len(), ph.len());
    visited.sort();
    assert_eq!(visited, expected);
    let mut some = ph.values();
    some.next();
    some.next();
    assert_eq!(some.count(), 23);
}

#[test]
fn ptr_heap_values_mut_writes_every_element() {
    let mut ph = PairingHeap::new();
    let mut handles = Vec::new();
    for i in 0..12i32 {
        handles.push(ph.push(i, -i));
    }
    assert_eq!(ph.pop(), Some(11));
    {
        let mut values = ph.values_mut();
        let mut visited = 0;
        while let Some(elem) = values.next() {
            *elem += 100;
            visited += 1;
        }
        assert_eq!(visited, 11);
        assert!(values.next().is_none());
    }
    for i in 0..11usize {
        assert_eq!(ph.get(handles[i]), Some(&(i as i32 + 100)));
    }
    assert_eq!(ph.len(), 11);
    assert_eq!(ph.drain_min().collect(), vec![110, 109, 108, 107, 106, 105, 104, 103, 102, 101, 100]);
}

#[test]
fn ptr_heap_elements_can_be_written() {
    let mut ph = PairingHeap::new();
    let a = ph.push(String::from("a"), 3);
    let b = ph.push(String::from("b"), 1);
    let c = ph.push(String::from("c"), 2);
    ph.get_mut(a).unwrap().push('!');
    ph.peek_mut().unwrap().push('?');
    ph.get_unchecked_mut(c).push('#');
    ph.index_mut(c).push('+');
    ph.peek_unchecked_mut().push('-');
    assert_eq!(ph.get_unchecked(a), "a!");
    assert_eq!(ph[b], "b?-");
    assert_eq!(ph[c], "c#+");
    assert_eq!(ph.peek().map(|s| s.as_str()), Some("b?-"));
    assert_eq!(ph.pop().as_deref(), Some("b?-"));
    assert!(ph.get_mut(b).is_none());
    assert_eq!(ph.len(), 2);
    assert_eq!(ph.pop().as_deref(), Some("c#+"));
    assert_eq!(ph.pop().as_deref(), Some("a!"));
    assert!(ph.peek_mut().is_none());
    assert!(ph.get_mut(a).is_none());
}

#[test]
fn ptr_heap_drain_is_sorted_by_key() {
    let pairs = [('q', 4u8), ('w', 3), ('e', 9), ('r', 0), ('t', 7), ('y', 1), ('u', 8)];
    let mut ph = PairingHeap::new();
    for (elem, key) in pairs {
        ph.push(elem, key);
    }
    let mut sorted = pairs.to_vec();
    sorted.sort_by_key(|pair| pair.1);
    let expected: Vec<char> = sorted.iter().map(|pair| pair.0).collect();
    assert_eq!(expected, vec!['r', 'y', 'w', 'q', 't', 'u', 'e']);
    assert_eq!(ph.clone().drain_min().collect(), expected);
    let mut drain = ph.drain_min();
    for elem in expected {
        assert_eq!(drain.next(), Some(elem));
    }
    assert_eq!(drain.next(), None);
    assert_eq!(drain.next(), None);
    assert_eq!(drain.collect(), Vec::<char>::new());
}

#[test]
fn ptr_heap_clone_is_a_heap_of_its_own() {
    let mut ph = PairingHeap::new();
    let a = ph.push(String::from("a"), 2);
    ph.push(String::from("b"), 1);
    assert_eq!(ph.pop().as_deref(), Some("b"));
    let c = ph.push(String::from("c"), 3);
    let mut copy = ph.clone();
    assert_eq!(copy.len(), 2);
    assert_eq!(copy.get(a).map(|s| s.as_str()), Some("a"));
    assert_eq!(copy.get(c).map(|s| s.as_str()), Some("c"));
    assert_eq!(copy.peek().map(|s| s.as_str()), Some("a"));
    // what happens to the copy does not happen to the heap it was made from
    copy.get_mut(a).unwrap().push('!');
    assert_eq!(Ok(()), copy.decrease_key(c, 0));
    let d = copy.push(String::from("d"), -1);
    assert_eq!(copy.pop().as_deref(), Some("d"));
    assert_eq!(copy.get(d), None);
    assert_eq!(copy.pop().as_deref(), Some("c"));
    assert_eq!(copy.pop().as_deref(), Some("a!"));
    assert_eq!(copy.pop(), None);
    assert_eq!(ph.len(), 2);
    assert_eq!(ph.pop().as_deref(), Some("a"));
    assert_eq!(ph.pop().as_deref(), Some("c"));
    assert_eq!(ph.pop(), None);
}

#[test]
fn ptr_heap_clone_pops_like_its_source() {
    let mut ph = PairingHeap::new();
    let mut handles = Vec::new();
    for i in 0..40u32 {
        // many equal keys
        handles.push(ph.push(i, (i * 7) % 5));
    }
    assert_eq!(ph.pop(), Some(0));
    assert_eq!(Ok(()), ph.decrease_key(handles[23], 0));
    assert_eq!(Ok(()), ph.decrease_key(handles[39], 1));
    let mut copy = ph.clone();
    assert_eq!(copy.len(), ph.len());
    while !ph.is_empty() {
        assert_eq!(copy.peek(), ph.peek());
        assert_eq!(copy.pop(), ph.pop());
        assert_eq!(copy.len(), ph.len());
    }
    assert_eq!(copy.pop(), None);
}

#[test]
fn ptr_heap_default_key_type_is_i64() {
    let mut ph: DefaultPairingHeap<&str> = PairingHeap::new();
    ph.push("max", i64::MAX);
    ph.push("min", i64::MIN);
    ph.push("zero", 0);
    assert_eq!(ph.drain_min().collect(), vec!["min", "zero", "max"]);
}

#[test]
fn ptr_heap_handle_converts_to_and_from_usize() {
    let handle = Handle::from(17usize);
    assert_eq!(usize::from(handle), 17);
    assert_eq!(handle, Handle::from(17usize));
    assert_ne!(handle, Handle::from(18usize));
    let mut ph = PairingHeap::new();
    let h = ph.push('h', 0);
    assert_eq!(ph.get(Handle::from(usize::from(h))), Some(&'h'));
}

fn drains_like_a_sort(n: usize, seed: u64) {
    let mut rng = StdRng::seed_from_u64(seed);
    let mut ph = PairingHeap::new();
    let mut keys = Vec::with_capacity(n);
    for _ in 0..n {
        let key: i64 = rng.random_range(-1_000_000..1_000_000);
        keys.push(key);
        ph.push(key, key);
    }
    assert_eq!(ph.len(), n);
    keys.sort();
    let drained = ph.drain_min().collect();
    assert_eq!(drained, keys);
}

#[test]
fn ptr_heap_random_keys_drain_like_a_sort() {
    drains_like_a_sort(0, 1);
    drains_like_a_sort(1, 2);
    drains_like_a_sort(2, 3);
    drains_like_a_sort(1000, 4);
}

#[test]
fn ptr_heap_many_random_keys_drain_like_a_sort() {
    drains_like_a_sort(100_000, 5);
}

#[test]
fn ptr_heap_random_operations_agree_with_a_list() {
    let mut rng = StdRng::seed_from_u64(99);
    let mut ph = PairingHeap::new();
    let mut live: Vec<(Handle, i64, u32)> = Vec::new();
    let mut next_elem = 0u32;
    for _ in 0..20_000 {
        let choice: u32 = rng.random_range(0..10);
        if choice < 4 || live.is_empty() {
            // few distinct keys, so that equal keys are common
            let key: i64 = rng.random_range(0..50);
            let h = ph.push(next_elem, key);
            assert!(live.iter().all(|entry| entry.0 != h));
            live.push((h, key, next_elem));
            next_elem += 1;
        } else if choice < 7 {
            let at = rng.random_range(0..live.len());
            let new_key: i64 = live[at].1 - rng.random_range(0..5i64);
            let result = ph.decrease_key(live[at].0, new_key);
            if new_key < live[at].1 {
                assert_eq!(result, Ok(()));
                live[at].1 = new_key;
            } else {
                assert_eq!(result, Err(Error::DecreaseKeyOutOfOrder));
            }
        } else {
            let least = keys_of(&live).unwrap();
            let popped = ph.pop().unwrap();
            let at = live.iter().position(|entry| entry.2 == popped).unwrap();
            assert_eq!(live[at].1, least);
            assert_eq!(ph.get(live[at].0), None);
            live.swap_remove(at);
        }
        assert_eq!(ph.len(), live.len());
        match ph.peek() {
            Some(elem) => {
                let entry = live.iter().find(|entry| entry.2 == *elem).unwrap();
                assert_eq!(Some(entry.1), keys_of(&live));
            }
            None => assert!(live.is_empty()),
        }
        if let Some(entry) = live.last() {
            assert_eq!(ph.get(entry.0), Some(&entry.2));
        }
    }
    for entry in &live {
        assert_eq!(ph.get(entry.0), Some(&entry.2));
    }
    live.sort_by_key(|entry| entry.1);
    let mut keys = Vec::new();
    while let Some(elem) = ph.pop() {
        keys.push(live.iter().find(|entry| entry.2 == elem).unwrap().1);
    }
    assert_eq!(keys, live.iter().map(|entry| entry.1).collect::<Vec<i64>>());
}
