use addressable_pairing_heap::ptr_heap::{Error, PairingHeap};

#[test]
fn ptr_heap_take_min() {
    let mut ph = PairingHeap::new();
    ph.push(0, 6);
    ph.push(1, 10);
    ph.push(2, -42);
    ph.push(3, 1337);
    ph.push(4, -1);
    ph.push(5, 1);
    ph.push(6, 2);
    ph.push(7, 3);
    ph.push(8, 4);
    ph.push(9, 5);
    println!("ph = {:?}", ph);
    assert_eq!(Some(2), ph.pop());
    println!("ph = {:?}", ph);
    assert_eq!(Some(4), ph.pop());
    println!("ph = {:?}", ph);
    assert_eq!(Some(5), ph.pop());
    println!("ph = {:?}", ph);
    assert_eq!(Some(6), ph.pop());
    println!("ph = {:?}", ph);
    assert_eq!(Some(7), ph.pop());
    println!("ph = {:?}", ph);
    assert_eq!(Some(8), ph.pop());
    println!("ph = {:?}", ph);
    assert_eq!(Some(9), ph.pop());
    println!("ph = {:?}", ph);
    assert_eq!(Some(0), ph.pop());
    println!("ph = {:?}", ph);
    assert_eq!(Some(1), ph.pop());
    println!("ph = {:?}", ph);
    assert_eq!(Some(3), ph.pop());
    println!("ph = {:?}", ph);
    assert_eq!(None, ph.pop());
    println!("ph = {:?}", ph);
}

#[test]
fn ptr_heap_decrease_key() {
    let mut ph = PairingHeap::new();
    let a = ph.push(0, 0);
    let b = ph.push(1, 50);
    let c = ph.push(2, 100);
    let d = ph.push(3, 150);
    let e = ph.push(4, 200);
    let f = ph.push(5, 250);
    assert_eq!(Some(&0), ph.peek());
    assert_eq!(Ok(()), ph.decrease_key(f, -50));
    assert_eq!(Some(&5), ph.peek());
    assert_eq!(Ok(()), ph.decrease_key(e, -100));
    assert_eq!(Some(&4), ph.peek());
    assert_eq!(Ok(()), ph.decrease_key(d, -99));
    assert_eq!(Some(&4), ph.peek());
    assert_eq!(Err(Error::DecreaseKeyOutOfOrder), ph.decrease_key(c, 1000));
    assert_eq!(Some(&4), ph.peek());
    assert_eq!(Ok(()), ph.decrease_key(b, -1000));
    assert_eq!(Some(&1), ph.peek());
    assert_eq!(Err(Error::DecreaseKeyOutOfOrder), ph.decrease_key(a, 100));
    assert_eq!(Some(&1), ph.peek());
}

#[test]
fn ptr_heap_empty_take() {
    let mut ph = PairingHeap::<usize, usize>::new();
    assert_eq!(None, ph.pop());
}

fn setup() -> PairingHeap<char, i64> {
    let mut ph = PairingHeap::new();
    ph.push('a', 100);
    ph.push('b', 50);
    ph.push('c', 150);
    ph.push('d', -25);
    ph.push('e', 999);
    ph.push('f', 42);
    ph.push('g', 43);
    ph.push('i', 41);
    ph.push('j', -100);
    ph.push('k', -77);
    ph.push('l', 123);
    ph.push('m', -123);
    ph.push('n', 0);
    ph.push('o', -1);
    ph.push('p', 2);
    ph.push('q', -3);
    ph.push('r', 4);
    ph.push('s', -5);
    ph
}

#[test]
fn ptr_heap_drain_min() {
    let ph = setup();
    let mut drain = ph.drain_min();

    assert_eq!(drain.next(), Some('m'));
    assert_eq!(drain.next(), Some('j'));
    assert_eq!(drain.next(), Some('k'));
    assert_eq!(drain.next(), Some('d'));
    assert_eq!(drain.next(), Some('s'));
    assert_eq!(drain.next(), Some('q'));
    assert_eq!(drain.next(), Some('o'));
    assert_eq!(drain.next(), Some('n'));

    assert_eq!(drain.next(), Some('p'));
    assert_eq!(drain.next(), Some('r'));
    assert_eq!(drain.next(), Some('i'));
    assert_eq!(drain.next(), Some('f'));
    assert_eq!(drain.next(), Some('g'));
    assert_eq!(drain.next(), Some('b'));
    assert_eq!(drain.next(), Some('a'));
    assert_eq!(drain.next(), Some('l'));
    assert_eq!(drain.next(), Some('c'));
    assert_eq!(drain.next(), Some('e'));

    assert_eq!(drain.next(), None);
}

#[test]
fn ptr_heap_values() {
    let ph = setup();
    let values = ph.values();

    // cannot test order of values since it is unspecified!
    assert_eq!(values.count(), 18);
}
