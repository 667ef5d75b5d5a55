use pairing_heap::Heap;

#[test]
fn empty_heap_pops_none() {
    let mut h = Heap::<u8>::new();
    assert_eq!(None, h.pop());
}

#[test]
fn heap_with_one_value() {
    let mut h = Heap::new();
    h.push(1);
    assert_eq!(Some(1), h.pop());
    assert_eq!(None, h.pop());
}

#[test]
fn multiple_values_inserted_in_order_returns_them_in_order() {
    let mut h = Heap::new();
    h.push(1);
    h.push(2);
    assert_eq!(Some(1), h.pop());
    assert_eq!(Some(2), h.pop());
    assert_eq!(None, h.pop());
}

#[test]
fn multiple_values_inserted_out_of_order_returns_them_in_order() {
    let mut h = Heap::new();
    h.push(2);
    h.push(1);
    assert_eq!(Some(1), h.pop());
    assert_eq!(Some(2), h.pop());
    assert_eq!(None, h.pop());
}

#[test]
fn duplicate_values_are_kept() {
    let mut h = Heap::new();

    for i in 0..5 {
        h.push(i);
    }
    for i in 0..5 {
        h.push(i);
    }

    for i in 0..5 {
        assert_eq!(Some(i), h.pop());
        assert_eq!(Some(i), h.pop());
    }
    assert_eq!(None, h.pop());
}

#[test]
fn interleaved_push_and_pop() {
    let mut h = Heap::new();

    h.push(0);
    assert_eq!(Some(0), h.pop());

    h.push(1);
    h.push(1);
    assert_eq!(Some(1), h.pop());

    h.push(2);
    assert_eq!(Some(1), h.pop());
    assert_eq!(Some(2), h.pop());
    assert_eq!(None, h.pop());
}

#[test]
fn many_values_inserted_returns_them_in_order() {
    let count = 123;

    let mut h = Heap::new();
    for i in 0..count {
        h.push(i);
    }

    for i in 0..count {
        assert_eq!(Some(i), h.pop());
    }
    assert_eq!(None, h.pop());
}

#[test]
fn decreasing_a_key_brings_it_to_the_front() {
    let mut h = Heap::new();

    h.push(10);
    let t2 = h.push(20);

    assert_eq!(Ok(()), h.decrease_key(t2, |v| *v = 5));

    assert_eq!(Some(5), h.pop());
    assert_eq!(Some(10), h.pop());
    assert_eq!(None, h.pop());
}

#[test]
fn decreasing_a_key_of_many_brings_it_to_the_front() {
    let mut h = Heap::new();

    let mut t = h.push(10);
    for i in 11..100 {
        t = h.push(i);
    }

    assert_eq!(Ok(()), h.decrease_key(t, |v| *v = 1));

    assert_eq!(Some(1), h.pop());

    for i in 10..99 {
        assert_eq!(Some(i), h.pop());
    }

    assert_eq!(None, h.pop());
}
