//! What holds of the list operations in combination, proved over the
//! sequence model through which both list types state their contracts.

use crate::model::{
    appended, element_at, first_of, inserted, last_of, prepended, replaced, reversed,
    without_first, without_last,
};
use vstd::prelude::*;

verus! {

/// The values of a list that held `s` after every value of `values` was
/// appended to it, in the order of `values`.
pub open spec fn append_all<T>(s: Seq<T>, values: Seq<T>) -> Seq<T>
    decreases values.len(),
{
    if values.len() == 0 {
        s
    } else {
        appended(append_all(s, values.drop_last()), values.last())
    }
}

/// The values of a list that held `s` after `count` calls of `pop`.
pub open spec fn pop_times<T>(s: Seq<T>, count: nat) -> Seq<T>
    decreases count,
{
    if count == 0 {
        s
    } else {
        without_last(pop_times(s, (count - 1) as nat))
    }
}

/// The values of a list that held `s` after `count` calls of `pop_first`.
pub open spec fn pop_first_times<T>(s: Seq<T>, count: nat) -> Seq<T>
    decreases count,
{
    if count == 0 {
        s
    } else {
        without_first(pop_first_times(s, (count - 1) as nat))
    }
}

/// Appending to an empty list builds exactly the appended values: the length
/// is their number, and every position holds the value appended at that turn.
pub proof fn lemma_appends_build_the_sequence<T>(values: Seq<T>)
    ensures
        append_all(Seq::<T>::empty(), values) == values,
        append_all(Seq::<T>::empty(), values).len() == values.len(),
        forall|i: int|
            0 <= i < values.len() ==> element_at(append_all(Seq::<T>::empty(), values), i) == Some(
                values[i],
            ),
    decreases values.len(),
{
    if values.len() > 0 {
        lemma_appends_build_the_sequence(values.drop_last());
        assert(values.drop_last().push(values.last()) =~= values);
    }
}

/// After `count` calls of `pop`, the values left are those before the last
/// `count` ones; once `count` reaches the length, none is left.
pub proof fn lemma_pop_times<T>(s: Seq<T>, count: nat)
    ensures
        count <= s.len() ==> pop_times(s, count) == s.subrange(0, s.len() - count),
        count >= s.len() ==> pop_times(s, count) == Seq::<T>::empty(),
    decreases count,
{
    if count == 0 {
        assert(s.subrange(0, s.len() as int) =~= s);
        if s.len() == 0 {
            assert(s =~= Seq::<T>::empty());
        }
    } else {
        lemma_pop_times(s, (count - 1) as nat);
        let rest = pop_times(s, (count - 1) as nat);
        if count <= s.len() {
            assert(rest.drop_last() =~= s.subrange(0, s.len() - count));
            if count == s.len() {
                assert(s.subrange(0, 0) =~= Seq::<T>::empty());
            }
        }
    }
}

/// After `count` calls of `pop_first`, the values left are those behind the
/// first `count` ones; once `count` reaches the length, none is left.
pub proof fn lemma_pop_first_times<T>(s: Seq<T>, count: nat)
    ensures
        count <= s.len() ==> pop_first_times(s, count) == s.subrange(count as int, s.len() as int),
        count >= s.len() ==> pop_first_times(s, count) == Seq::<T>::empty(),
    decreases count,
{
    if count == 0 {
        assert(s.subrange(0, s.len() as int) =~= s);
        if s.len() == 0 {
            assert(s =~= Seq::<T>::empty());
        }
    } else {
        lemma_pop_first_times(s, (count - 1) as nat);
        let rest = pop_first_times(s, (count - 1) as nat);
        if count <= s.len() {
            assert(rest.drop_first() =~= s.subrange(count as int, s.len() as int));
            if count == s.len() {
                assert(s.subrange(count as int, s.len() as int) =~= Seq::<T>::empty());
            }
        }
    }
}

/// Popping a list built by appends returns the values in the reverse of the
/// order in which they were appended, and nothing once the list is empty.
/// The drained list is empty, and an append to it gives a list of that one
/// value.
pub proof fn lemma_pop_reverses_appends<T>(values: Seq<T>)
    ensures
        forall|k: nat|
            k < values.len() ==> last_of(
                #[trigger] pop_times(append_all(Seq::<T>::empty(), values), k),
            ) == Some(values[values.len() - 1 - k]),
        forall|k: nat|
            k >= values.len() ==> last_of(
                #[trigger] pop_times(append_all(Seq::<T>::empty(), values), k),
            ) is None,
        pop_times(append_all(Seq::<T>::empty(), values), values.len()).len() == 0,
        forall|v: T|
            #[trigger] appended(
                pop_times(append_all(Seq::<T>::empty(), values), values.len()),
                v,
            ) == seq![v],
{
    lemma_appends_build_the_sequence(values);
    assert forall|k: nat| k < values.len() implies last_of(
        #[trigger] pop_times(append_all(Seq::<T>::empty(), values), k),
    ) == Some(values[values.len() - 1 - k]) by {
        lemma_pop_times(values, k);
    }
    assert forall|k: nat| k >= values.len() implies last_of(
        #[trigger] pop_times(append_all(Seq::<T>::empty(), values), k),
    ) is None by {
        lemma_pop_times(values, k);
    }
    lemma_pop_times(values, values.len());
    assert forall|v: T|
        #[trigger] appended(pop_times(append_all(Seq::<T>::empty(), values), values.len()), v)
            == seq![v] by {
        assert(Seq::<T>::empty().push(v) =~= seq![v]);
    }
}

/// Removing from the front of a list built by appends returns the values in
/// the order in which they were appended, and nothing once the list is empty.
pub proof fn lemma_pop_first_follows_appends<T>(values: Seq<T>)
    ensures
        forall|k: nat|
            k < values.len() ==> first_of(
                #[trigger] pop_first_times(append_all(Seq::<T>::empty(), values), k),
            ) == Some(values[k as int]),
        forall|k: nat|
            k >= values.len() ==> first_of(
                #[trigger] pop_first_times(append_all(Seq::<T>::empty(), values), k),
            ) is None,
{
    lemma_appends_build_the_sequence(values);
    assert forall|k: nat| k < values.len() implies first_of(
        #[trigger] pop_first_times(append_all(Seq::<T>::empty(), values), k),
    ) == Some(values[k as int]) by {
        lemma_pop_first_times(values, k);
    }
    assert forall|k: nat| k >= values.len() implies first_of(
        #[trigger] pop_first_times(append_all(Seq::<T>::empty(), values), k),
    ) is None by {
        lemma_pop_first_times(values, k);
    }
}

/// Inserting at index zero is prepending, and inserting at the index equal to
/// the length is appending, whatever the list holds.
pub proof fn lemma_insert_at_the_ends<T>(s: Seq<T>, value: T)
    ensures
        inserted(s, 0, value) == prepended(s, value),
        inserted(s, s.len() as int, value) == appended(s, value),
{
    assert(s.insert(0, value) =~= seq![value] + s);
    assert(s.insert(s.len() as int, value) =~= s.push(value));
}

/// Reversing twice restores the values, so that every index holds again what
/// it held before.
pub proof fn lemma_reverse_is_an_involution<T>(s: Seq<T>)
    ensures
        reversed(reversed(s)) == s,
        forall|index: int| element_at(reversed(reversed(s)), index) == element_at(s, index),
{
    assert(reversed(reversed(s)) =~= s);
}

/// An index that is negative or not below the length names no element:
/// reading there gives nothing, and writing there gives nothing back and
/// changes neither the length nor any value.
pub proof fn lemma_out_of_range_is_absorbed<T>(s: Seq<T>, index: int, value: T)
    requires
        index < 0 || index >= s.len(),
    ensures
        element_at(s, index) is None,
        replaced(s, index, value) == s,
        replaced(s, index, value).len() == s.len(),
{
}

} // verus!
