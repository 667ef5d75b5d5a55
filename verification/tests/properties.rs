use pairing_heap::{Heap, InvalidToken, Token};
use std::cmp::Reverse;
use std::collections::BinaryHeap;

/// A fixed sequence of numbers that looks shuffled.
fn shuffled(count: usize, modulus: u64) -> Vec<u64> {
    let mut state: u64 = 0x2545_f491_4f6c_dd1d;
    let mut out = Vec::with_capacity(count);
    for _ in 0..count {
        state ^= state << 13;
        state ^= state >> 7;
        state ^= state << 17;
        out.push(state % modulus);
    }
    out
}

fn drain<T: Ord>(heap: &mut Heap<T>) -> Vec<T> {
    let mut out = Vec::new();
    while let Some(value) = heap.pop() {
        out.push(value);
    }
    out
}

#[test]
fn pops_come_out_sorted() {
    for count in [0usize, 1, 2, 3, 4, 5, 6, 7, 8, 9, 16, 17, 64, 257, 1000] {
        let input = shuffled(count, 1 << 40);
        let mut heap = Heap::new();
        for &value in &input {
            heap.push(value);
        }
        let out = drain(&mut heap);
        let mut expected = input.clone();
        expected.sort();
        assert_eq!(expected, out);
        assert_eq!(None, heap.pop());
    }
}

#[test]
fn descending_input_comes_out_ascending() {
    let mut heap = Heap::new();
    for value in (0..200).rev() {
        heap.push(value);
    }
    for value in 0..200 {
        assert_eq!(Some(value), heap.pop());
    }
    assert_eq!(None, heap.pop());
}

#[test]
fn every_pushed_value_comes_out_once() {
    // Few distinct values, so that most occur several times.
    let input = shuffled(500, 7);
    let mut heap = Heap::new();
    let mut pushed = [0usize; 7];
    let mut popped = [0usize; 7];
    for (step, &value) in input.iter().enumerate() {
        heap.push(value);
        pushed[value as usize] += 1;
        if step % 3 == 2 {
            let value = heap.pop().unwrap();
            popped[value as usize] += 1;
        }
    }
    for value in drain(&mut heap) {
        popped[value as usize] += 1;
    }
    assert_eq!(pushed, popped);
}

#[test]
fn interleaving_agrees_with_a_binary_heap() {
    let input = shuffled(2000, 1000);
    let mut heap = Heap::new();
    let mut model = BinaryHeap::new();
    for (step, &value) in input.iter().enumerate() {
        if value % 3 == 0 && step % 2 == 0 {
            assert_eq!(model.pop().map(|Reverse(v)| v), heap.pop());
        } else {
            heap.push(value);
            model.push(Reverse(value));
        }
    }
    while let Some(Reverse(value)) = model.pop() {
        assert_eq!(Some(value), heap.pop());
    }
    assert_eq!(None, heap.pop());
}

#[test]
fn drained_heap_keeps_returning_none() {
    let mut heap = Heap::new();
    for _ in 0..3 {
        assert_eq!(None, heap.pop());
    }
    heap.push(4);
    heap.push(3);
    assert_eq!(Some(3), heap.pop());
    assert_eq!(Some(4), heap.pop());
    for _ in 0..5 {
        assert_eq!(None, heap.pop());
    }
    heap.push(9);
    assert_eq!(Some(9), heap.pop());
    assert_eq!(None, heap.pop());
}

#[test]
fn lowered_key_is_popped_next() {
    let input = shuffled(300, 1 << 20);
    let mut heap = Heap::new();
    let mut tokens = Vec::new();
    for &value in &input {
        // Keep every value above zero, so that zero is strictly the least.
        tokens.push(heap.push(value + 1));
    }
    // Pop once, so that the tree has depth.
    let least = heap.pop().unwrap();
    let position = input.iter().position(|&value| value + 1 == least).unwrap();
    let chosen = if position == 17 { 18 } else { 17 };
    assert_eq!(Ok(()), heap.decrease_key(tokens[chosen], |value| *value = 0));
    assert_eq!(Some(0), heap.pop());

    let mut expected: Vec<u64> = input.iter().map(|&value| value + 1).collect();
    expected.sort();
    let at = expected.iter().position(|&value| value == least).unwrap();
    expected.remove(at);
    let at = expected.iter().position(|&value| value == input[chosen] + 1).unwrap();
    expected.remove(at);
    assert_eq!(expected, drain(&mut heap));
}

#[test]
fn decrease_key_to_an_equal_or_middle_value_keeps_the_order() {
    let mut heap = Heap::new();
    let mut tokens = Vec::new();
    for value in [50, 10, 40, 20, 30, 60, 70] {
        tokens.push(heap.push(value));
    }
    assert_eq!(Some(10), heap.pop());
    // 70 -> 35 lands in the middle, 60 -> 60 stays, 40 -> 20 ties with another element.
    assert_eq!(Ok(()), heap.decrease_key(tokens[6], |value| *value = 35));
    assert_eq!(Ok(()), heap.decrease_key(tokens[5], |_| ()));
    assert_eq!(Ok(()), heap.decrease_key(tokens[2], |value| *value -= 20));
    assert_eq!(vec![20, 20, 30, 35, 50, 60], drain(&mut heap));
}

#[test]
fn decrease_key_of_the_root_keeps_it_first() {
    let mut heap = Heap::new();
    let root = heap.push(5);
    heap.push(8);
    heap.push(6);
    assert_eq!(Ok(()), heap.decrease_key(root, |value| *value = 2));
    assert_eq!(vec![2, 6, 8], drain(&mut heap));
}

#[test]
fn decrease_key_reaches_every_position_among_siblings() {
    // After one pop of 0..=8 the root has several children, some with children of their own.
    for target in 1..=8 {
        let mut heap = Heap::new();
        let mut tokens = Vec::new();
        for value in 0..=8 {
            tokens.push(heap.push(value * 10));
        }
        assert_eq!(Some(0), heap.pop());
        assert_eq!(Ok(()), heap.decrease_key(tokens[target], |value| *value -= 15));
        let mut expected: Vec<i32> = (1..=8).map(|value| value * 10).collect();
        expected[target - 1] -= 15;
        expected.sort();
        assert_eq!(expected, drain(&mut heap));
    }
}

#[test]
fn every_key_can_be_lowered_in_turn() {
    let input = shuffled(120, 1 << 16);
    let mut heap = Heap::new();
    let mut tokens = Vec::new();
    let mut values = Vec::new();
    for &value in &input {
        tokens.push(heap.push(value + 1000));
        values.push(value + 1000);
    }
    let least = values.iter().min().copied();
    assert_eq!(least, heap.pop());
    let gone = values.iter().position(|&value| Some(value) == least).unwrap();
    for (at, &token) in tokens.iter().enumerate() {
        let by = (at as u64 * 37) % 1000;
        let result = heap.decrease_key(token, |value| *value -= by);
        if at == gone {
            assert_eq!(Err(InvalidToken), result);
        } else {
            assert_eq!(Ok(()), result);
            values[at] -= by;
        }
    }
    values.remove(gone);
    values.sort();
    assert_eq!(values, drain(&mut heap));
}

#[test]
fn token_of_a_popped_element_is_refused() {
    let mut heap = Heap::new();
    let first = heap.push(1);
    let second = heap.push(2);
    assert_eq!(Some(1), heap.pop());

    let mut called = false;
    assert_eq!(Err(InvalidToken), heap.decrease_key(first, |value| {
        called = true;
        *value = 0;
    }));
    assert!(!called);

    assert_eq!(Ok(()), heap.decrease_key(second, |value| *value = 1));
    assert_eq!(Some(1), heap.pop());
    assert_eq!(Err(InvalidToken), heap.decrease_key(second, |value| *value = 0));
    assert_eq!(None, heap.pop());
}

#[test]
fn token_stays_refused_when_its_place_is_used_again() {
    let mut heap = Heap::new();
    let old = heap.push(7);
    assert_eq!(Some(7), heap.pop());
    // The new element takes the place that the popped one gave up.
    let new = heap.push(9);
    assert_eq!(Err(InvalidToken), heap.decrease_key(old, |value| *value = 0));
    assert_eq!(Ok(()), heap.decrease_key(new, |value| *value = 8));
    assert_eq!(Some(8), heap.pop());
    assert_eq!(Err(InvalidToken), heap.decrease_key(new, |value| *value = 0));
    assert_eq!(Err(InvalidToken), heap.decrease_key(old, |value| *value = 0));
    assert_eq!(None, heap.pop());
}

#[test]
fn token_can_be_copied_and_printed() {
    let mut heap = Heap::new();
    let token: Token<u32> = heap.push(30);
    let copy = token;
    let clone = token.clone();
    assert_eq!(Ok(()), heap.decrease_key(token, |value| *value = 20));
    assert_eq!(Ok(()), heap.decrease_key(copy, |value| *value = 10));
    assert_eq!(Ok(()), heap.decrease_key(clone, |value| *value = 5));
    assert!(!format!("{:?}", token).is_empty());
    assert_eq!(Some(5), heap.pop());
}

#[test]
fn invalid_token_can_be_compared_and_printed() {
    let error = InvalidToken;
    let copy = error;
    assert_eq!(error, copy.clone());
    assert_eq!("InvalidToken", format!("{:?}", error));
}

#[test]
fn order_is_that_of_the_element_type() {
    let mut words = Heap::new();
    for word in ["pear", "apple", "fig", "apple", "quince"] {
        words.push(String::from(word));
    }
    let out = drain(&mut words);
    assert_eq!(vec!["apple", "apple", "fig", "pear", "quince"], out);

    let mut pairs = Heap::new();
    let late = pairs.push((3, 'a'));
    pairs.push((1, 'z'));
    pairs.push((1, 'b'));
    assert_eq!(Ok(()), pairs.decrease_key(late, |pair| pair.0 = 1));
    assert_eq!(vec![(1, 'a'), (1, 'b'), (1, 'z')], drain(&mut pairs));

    let mut largest_first = Heap::new();
    for value in [2, 9, 4] {
        largest_first.push(Reverse(value));
    }
    assert_eq!(Some(Reverse(9)), largest_first.pop());
}

#[test]
fn places_are_used_again_after_many_rounds() {
    let mut heap = Heap::new();
    let mut last = heap.push(0u32);
    for round in 1..5000u32 {
        let token = heap.push(round);
        assert_eq!(Some(round - 1), heap.pop());
        assert_eq!(Err(InvalidToken), heap.decrease_key(last, |value| *value = 0));
        last = token;
    }
    assert_eq!(Ok(()), heap.decrease_key(last, |value| *value = 1));
    assert_eq!(Some(1), heap.pop());
    assert_eq!(None, heap.pop());
}

/// A value that is ordered by its number alone, so that values with different letters can
/// stand level.
#[derive(Debug, Clone, Copy)]
struct Keyed(u32, char);

impl PartialEq for Keyed {
    fn eq(&self, other: &Self) -> bool {
        self.0 == other.0
    }
}

impl Eq for Keyed {}

impl PartialOrd for Keyed {
    fn partial_cmp(&self, other: &Self) -> Option<std::cmp::Ordering> {
        Some(self.cmp(other))
    }
}

impl Ord for Keyed {
    fn cmp(&self, other: &Self) -> std::cmp::Ordering {
        self.0.cmp(&other.0)
    }
}

fn letters(heap: &mut Heap<Keyed>) -> String {
    let mut out = String::new();
    while let Some(Keyed(_, letter)) = heap.pop() {
        out.push(letter);
    }
    out
}

#[test]
fn of_two_level_values_the_root_stays_the_root() {
    let mut heap = Heap::new();
    heap.push(Keyed(1, 'a'));
    heap.push(Keyed(1, 'b'));
    assert_eq!("ab", letters(&mut heap));

    let mut heap = Heap::new();
    heap.push(Keyed(2, 'a'));
    let late = heap.push(Keyed(3, 'b'));
    // Lowered to the level of the root, the element is linked under it.
    assert_eq!(Ok(()), heap.decrease_key(late, |value| value.0 = 2));
    assert_eq!("ab", letters(&mut heap));
}

#[test]
fn level_values_leave_in_the_order_of_the_two_passes() {
    // The root gets the children a, b, c, d from left to right. Linked in pairs they give a
    // over b and c over d, and c is then linked under a in front of b.
    let mut heap = Heap::new();
    heap.push(Keyed(0, 'r'));
    for letter in ['d', 'c', 'b', 'a'] {
        heap.push(Keyed(1, letter));
    }
    assert_eq!("racbd", letters(&mut heap));

    // With a fifth child e, which has no partner, the backward pass starts from e: e goes
    // under c, and c goes under a.
    let mut heap = Heap::new();
    heap.push(Keyed(0, 'r'));
    for letter in ['e', 'd', 'c', 'b', 'a'] {
        heap.push(Keyed(1, letter));
    }
    assert_eq!("racbde", letters(&mut heap));
}

#[test]
fn a_single_child_becomes_the_root_as_it_is() {
    let mut heap = Heap::new();
    heap.push(Keyed(0, 'r'));
    let child = heap.push(Keyed(5, 'a'));
    heap.push(Keyed(5, 'b'));
    // b goes under the root in front of a; lowering a to the root's level moves it in front.
    assert_eq!(Ok(()), heap.decrease_key(child, |value| value.0 = 0));
    heap.push(Keyed(0, 'c'));
    assert_eq!(Some('r'), heap.pop().map(|value| value.1));
    // The children were c, a, b: c over a, then b under c in front of a.
    assert_eq!(Some('c'), heap.pop().map(|value| value.1));
    // Now the children are b and a, and b, the greater, goes under a.
    assert_eq!(Some('a'), heap.pop().map(|value| value.1));
    // b is the only child of a.
    assert_eq!(Some('b'), heap.pop().map(|value| value.1));
    assert_eq!(None, heap.pop().map(|value| value.1));
}
