//! What the contracts of the heap add up to over several calls.

use vstd::prelude::*;
use vstd::multiset::Multiset;
use crate::heap::{follows, pops, Heap};
use crate::order::{is_least, le, lemma_total_order, lt, sorted, total_order};
use crate::token::Token;

verus! {

/// One call on a heap: a `push` with the value it was given, or a `pop` with what it returned.
pub enum Step<T> {
    Push(T),
    Pop(Option<T>),
}

/// What the call `step` does to the values of a heap, by the contracts of `push` and `pop`.
pub open spec fn steps<T: Ord>(before: Multiset<T>, step: Step<T>, after: Multiset<T>) -> bool {
    match step {
        Step::Push(value) => after == before.insert(value),
        Step::Pop(popped) => pops(before, popped, after),
    }
}

/// `states` are the values of a heap before, between and after the calls `trace`.
pub open spec fn runs<T: Ord>(states: Seq<Multiset<T>>, trace: Seq<Step<T>>) -> bool {
    &&& states.len() == trace.len() + 1
    &&& forall|i: int| 0 <= i < trace.len() ==> steps(states[i], #[trigger] trace[i], states[i + 1])
}

/// The values that the calls of `trace` pushed.
pub open spec fn pushed<T>(trace: Seq<Step<T>>) -> Multiset<T>
    decreases trace.len(),
{
    if trace.len() == 0 {
        Multiset::empty()
    } else {
        match trace.last() {
            Step::Push(value) => pushed(trace.drop_last()).insert(value),
            Step::Pop(_) => pushed(trace.drop_last()),
        }
    }
}

/// The values that the calls of `trace` popped.
pub open spec fn popped<T>(trace: Seq<Step<T>>) -> Multiset<T>
    decreases trace.len(),
{
    if trace.len() == 0 {
        Multiset::empty()
    } else {
        match trace.last() {
            Step::Pop(Some(value)) => popped(trace.drop_last()).insert(value),
            _ => popped(trace.drop_last()),
        }
    }
}

/// `out` is what successive pops return from a heap with the values `bag` until it is empty.
pub open spec fn drains<T: Ord>(bag: Multiset<T>, out: Seq<T>) -> bool
    decreases out.len(),
{
    if out.len() == 0 {
        bag.len() == 0
    } else {
        pops(bag, Some(out.first()), bag.remove(out.first())) && drains(
            bag.remove(out.first()),
            out.drop_first(),
        )
    }
}

/// Popping a heap until it is empty returns exactly the values it held, each as often as it was
/// there.
pub proof fn lemma_drain_returns_everything<T: Ord>(bag: Multiset<T>, out: Seq<T>)
    requires
        drains(bag, out),
    ensures
        out.to_multiset() == bag,
    decreases out.len(),
{
    out.to_multiset_ensures();
    if out.len() == 0 {
        assert(out.to_multiset() =~= bag);
    } else {
        let rest = out.drop_first();
        lemma_drain_returns_everything(bag.remove(out.first()), rest);
        assert(rest == out.remove(0));
        assert(out.contains(out[0]));
        assert(out.to_multiset() =~= out.to_multiset().remove(out[0]).insert(out[0]));
        assert(bag =~= bag.remove(out[0]).insert(out[0]));
    }
}

/// Under a total order, popping a heap until it is empty returns its values in sorted order.
pub proof fn lemma_drain_is_sorted<T: Ord>(bag: Multiset<T>, out: Seq<T>)
    requires
        total_order::<T>(),
        drains(bag, out),
    ensures
        sorted(out),
    decreases out.len(),
{
    if out.len() > 0 {
        let rest = out.drop_first();
        lemma_drain_is_sorted(bag.remove(out.first()), rest);
        lemma_drain_returns_everything(bag.remove(out.first()), rest);
        lemma_total_order::<T>();
        rest.to_multiset_ensures();
        assert forall|i: int, j: int| 0 <= i <= j < out.len() implies le(
            #[trigger] out[i],
            #[trigger] out[j],
        ) by {
            if j == 0 {
            } else if i == 0 {
                assert(rest[j - 1] == out[j]);
                assert(rest.contains(rest[j - 1]));
                assert(bag.remove(out[0]).count(out[j]) > 0);
                assert(bag.count(out[j]) > 0);
            } else {
                assert(le(rest[i - 1], rest[j - 1]));
            }
        }
    }
}

/// Values are neither lost nor made up, however pushes and pops follow each other: what was
/// there at first and what was pushed is what was popped and what is left, value by value.
pub proof fn lemma_values_are_kept<T: Ord>(states: Seq<Multiset<T>>, trace: Seq<Step<T>>)
    requires
        runs(states, trace),
    ensures
        states.first().add(pushed(trace)) == states.last().add(popped(trace)),
    decreases trace.len(),
{
    if trace.len() == 0 {
        assert(states.first().add(pushed(trace)) =~= states.last().add(popped(trace)));
    } else {
        let earlier = trace.drop_last();
        let before = states.drop_last();
        assert(runs(before, earlier)) by {
            assert forall|i: int| 0 <= i < earlier.len() implies steps(
                before[i],
                #[trigger] earlier[i],
                before[i + 1],
            ) by {
                assert(steps(states[i], trace[i], states[i + 1]));
            }
        }
        lemma_values_are_kept(before, earlier);
        let last = trace.len() - 1;
        assert(steps(states[last], trace[last], states[last + 1]));
        assert(before.last() == states[last]);
        assert(before.first() == states.first());
        match trace.last() {
            Step::Push(value) => {
                assert(pushed(trace) == pushed(earlier).insert(value));
                assert(popped(trace) == popped(earlier));
            },
            Step::Pop(Some(value)) => {
                assert(pushed(trace) == pushed(earlier));
                assert(popped(trace) == popped(earlier).insert(value));
            },
            Step::Pop(None) => {
                assert(pushed(trace) == pushed(earlier));
                assert(popped(trace) == popped(earlier));
            },
        }
        assert forall|value: T|
            states.first().add(pushed(trace)).count(value) == states.last().add(
                popped(trace),
            ).count(value) by {
            assert(states.first().add(pushed(earlier)).count(value) == states[last].add(
                popped(earlier),
            ).count(value));
        }
        assert(states.first().add(pushed(trace)) =~= states.last().add(popped(trace)));
    }
}

/// An empty heap stays empty under pops, and each of them returns `None`.
pub proof fn lemma_empty_stays_empty<T: Ord>(states: Seq<Multiset<T>>, trace: Seq<Step<T>>)
    requires
        runs(states, trace),
        states.first().len() == 0,
        forall|i: int| 0 <= i < trace.len() ==> #[trigger] trace[i] is Pop,
    ensures
        forall|i: int| 0 <= i < trace.len() ==> #[trigger] trace[i] == Step::<T>::Pop(None),
        forall|i: int| 0 <= i < states.len() ==> (#[trigger] states[i]).len() == 0,
    decreases trace.len(),
{
    if trace.len() > 0 {
        let earlier = trace.drop_last();
        let before = states.drop_last();
        assert(runs(before, earlier)) by {
            assert forall|i: int| 0 <= i < earlier.len() implies steps(
                before[i],
                #[trigger] earlier[i],
                before[i + 1],
            ) by {
                assert(steps(states[i], trace[i], states[i + 1]));
            }
        }
        assert forall|i: int| 0 <= i < earlier.len() implies #[trigger] earlier[i] is Pop by {
            assert(trace[i] is Pop);
        }
        lemma_empty_stays_empty(before, earlier);
        let last = trace.len() - 1;
        assert(steps(states[last], trace[last], states[last + 1]));
        assert(before[last].len() == 0);
        assert forall|i: int| 0 <= i < trace.len() implies #[trigger] trace[i] == Step::<T>::Pop(
            None,
        ) by {
            if i < last {
                assert(earlier[i] == Step::<T>::Pop(None));
            }
        }
        assert forall|i: int| 0 <= i < states.len() implies (#[trigger] states[i]).len() == 0 by {
            if i <= last {
                assert(before[i].len() == 0);
            }
        }
    }
}

/// The token of an element that has been popped is never the token of an element again,
/// whatever is called on the heap afterwards: `decrease_key` refuses it for good.
///
/// `history` holds the heap as it is before, between and after any calls of `push`, `pop` and
/// `decrease_key`. At `earlier` the token has been issued and names no element.
pub proof fn lemma_popped_token_stays_refused<T: Ord>(
    history: Seq<Heap<T>>,
    token: Token<T>,
    earlier: int,
    later: int,
)
    requires
        forall|k: int|
            0 <= k < history.len() - 1 ==> follows(#[trigger] history[k], history[k + 1]),
        0 <= earlier <= later < history.len(),
        history[earlier].was_issued(token),
        !history[earlier]@.contains_key(token),
    ensures
        history[later].was_issued(token),
        !history[later]@.contains_key(token),
    decreases later - earlier,
{
    if earlier < later {
        lemma_popped_token_stays_refused(history, token, earlier, later - 1);
        assert(follows(history[later - 1], history[later]));
    }
}

/// After the value `old_value` of an element has been lowered to `new_value`, and nothing in
/// the heap comes before `new_value`, the next pop returns a value that stands level with
/// `new_value`; and where every other value in the heap comes strictly after `new_value`, the
/// next pop returns `new_value` itself and leaves the other values.
pub proof fn lemma_lowered_key_pops_first<T: Ord>(
    before: Multiset<T>,
    old_value: T,
    new_value: T,
    lowered: Multiset<T>,
    result: Option<T>,
    after: Multiset<T>,
)
    requires
        total_order::<T>(),
        before.contains(old_value),
        lowered == before.remove(old_value).insert(new_value),
        is_least(new_value, lowered),
        pops(lowered, result, after),
    ensures
        result matches Some(value) && le(value, new_value) && le(new_value, value),
        (forall|other: T| #[trigger]
            before.remove(old_value).count(other) > 0 ==> lt(new_value, other)) ==> result == Some(
            new_value,
        ) && after == before.remove(old_value),
{
    assert(lowered.count(new_value) > 0);
    assert(lowered.len() > 0) by {
        if lowered.len() == 0 {
            assert(lowered =~= Multiset::empty());
        }
    }
    let value = result.unwrap();
    assert(lowered.count(value) > 0);
    if forall|other: T| #[trigger]
        before.remove(old_value).count(other) > 0 ==> lt(new_value, other) {
        if value != new_value {
            assert(before.remove(old_value).count(value) > 0);
        }
        assert(after =~= before.remove(old_value));
    }
}

} // verus!
