use linked_lists::double_linked_list::KolzoDoublyLinkedList;

fn doubly_list_of(values: &[i32]) -> KolzoDoublyLinkedList<i32> {
    let mut list = KolzoDoublyLinkedList::new();
    for v in values {
        list.append(*v);
    }
    list
}

fn doubly_contents(list: &KolzoDoublyLinkedList<i32>) -> Vec<i32> {
    list.values().into_iter().copied().collect()
}

#[test]
fn doubly_test_append_and_pop() {
    let mut list: KolzoDoublyLinkedList<i32> = KolzoDoublyLinkedList::new();

    list.append(1);
    list.append(2);
    list.append(3);

    assert_eq!(list.len(), 3);

    assert_eq!(list.pop(), Some(3));
    assert_eq!(list.len(), 2);

    assert_eq!(list.pop(), Some(2));
    assert_eq!(list.len(), 1);

    assert_eq!(list.pop(), Some(1));
    assert_eq!(list.len(), 0);

    assert_eq!(list.pop(), None);
}

#[test]
fn doubly_test_prepend() {
    let mut list = KolzoDoublyLinkedList::new();

    list.prepend(1);
    list.prepend(2);
    list.prepend(3);

    assert_eq!(list.len(), 3);

    let walk = list.values();
    let mut current = walk.iter();
    assert_eq!(current.next().copied(), Some(&3));
    assert_eq!(current.next().copied(), Some(&2));
    assert_eq!(current.next().copied(), Some(&1));
    assert_eq!(current.next(), None);
}

#[test]
fn doubly_test_pop_first() {
    let mut list: KolzoDoublyLinkedList<i32> = KolzoDoublyLinkedList::new();

    assert_eq!(list.pop_first(), None);

    list.append(1);
    list.append(2);
    list.append(3);

    assert_eq!(list.pop_first(), Some(1));
    assert_eq!(list.pop_first(), Some(2));
    assert_eq!(list.pop_first(), Some(3));

    assert_eq!(list.pop_first(), None);
}

#[test]
fn doubly_test_get() {
    let mut list: KolzoDoublyLinkedList<i32> = KolzoDoublyLinkedList::new();

    assert_eq!(list.get(0), None);
    assert_eq!(list.get(1), None);
    assert_eq!(list.get(-1), None);

    list.append(10);
    list.append(20);
    list.append(30);

    assert_eq!(list.get(0), Some(&10));
    assert_eq!(list.get(1), Some(&20));
    assert_eq!(list.get(2), Some(&30));

    assert_eq!(list.get(3), None);

    assert_eq!(list.get(-1), None);
}

#[test]
fn doubly_test_set() {
    let mut list: KolzoDoublyLinkedList<i32> = KolzoDoublyLinkedList::new();

    assert_eq!(list.set(0, 10), None);
    assert_eq!(list.set(1, 20), None);
    assert_eq!(list.set(-1, 30), None);

    list.append(10);
    list.append(20);
    list.append(30);

    assert_eq!(list.set(0, 15), Some(10));
    assert_eq!(list.set(1, 25), Some(20));
    assert_eq!(list.set(2, 35), Some(30));

    assert_eq!(list.get(0), Some(&15));
    assert_eq!(list.get(1), Some(&25));
    assert_eq!(list.get(2), Some(&35));

    assert_eq!(list.set(3, 40), None);

    assert_eq!(list.set(-1, 50), None);
}

#[test]
fn doubly_test_insert() {
    let mut list: KolzoDoublyLinkedList<i32> = KolzoDoublyLinkedList::new();

    list.insert(0, 10);
    assert_eq!(list.get(0), Some(&10));

    list.append(20);
    list.append(30);

    list.insert(0, 5);
    assert_eq!(list.get(0), Some(&5));
    assert_eq!(list.get(1), Some(&10));
    assert_eq!(list.get(2), Some(&20));
    assert_eq!(list.get(3), Some(&30));

    list.insert(4, 35);
    assert_eq!(list.get(4), Some(&35));

    list.insert(2, 15);
    assert_eq!(list.get(0), Some(&5));
    assert_eq!(list.get(1), Some(&10));
    assert_eq!(list.get(2), Some(&15));
    assert_eq!(list.get(3), Some(&20));
    assert_eq!(list.get(4), Some(&30));
    assert_eq!(list.get(5), Some(&35));

    list.insert(10, 40);
    assert_eq!(list.get(6), None);

    list.insert(-1, 50);
    assert_eq!(list.get(6), None);
}

#[test]
fn doubly_test_remove() {
    let mut list: KolzoDoublyLinkedList<i32> = KolzoDoublyLinkedList::new();

    list.remove(0);
    assert_eq!(list.len(), 0);

    list.append(10);
    list.append(20);
    list.append(30);
    list.append(40);

    list.remove(0);
    assert_eq!(list.get(0), Some(&20));
    assert_eq!(list.len(), 3);

    list.remove(2);
    assert_eq!(list.get(1), Some(&30));
    assert_eq!(list.get(2), None);
    assert_eq!(list.len(), 2);

    list.append(50);
    list.remove(1);
    assert_eq!(list.get(0), Some(&20));
    assert_eq!(list.get(1), Some(&50));
    assert_eq!(list.len(), 2);

    list.remove(10);
    assert_eq!(list.len(), 2);

    list.remove(-1);
    assert_eq!(list.len(), 2);
}

#[test]
fn doubly_test_reverse_empty_list() {
    let mut list: KolzoDoublyLinkedList<i32> = KolzoDoublyLinkedList::new();
    list.reverse();
    assert_eq!(list.get(0), None);
}

#[test]
fn doubly_test_reverse_single_element_list() {
    let mut list: KolzoDoublyLinkedList<i32> = KolzoDoublyLinkedList::new();
    list.append(1);
    list.reverse();
    assert_eq!(list.get(0), Some(&1));
}

#[test]
fn doubly_test_reverse_multiple_elements_list() {
    let mut list: KolzoDoublyLinkedList<i32> = KolzoDoublyLinkedList::new();
    list.append(1);
    list.append(2);
    list.append(3);

    list.reverse();

    assert_eq!(list.get(0), Some(&3));
    assert_eq!(list.get(1), Some(&2));
    assert_eq!(list.get(2), Some(&1));
}

#[test]
fn doubly_test_reverse_twice() {
    let mut list: KolzoDoublyLinkedList<i32> = KolzoDoublyLinkedList::new();
    list.append(1);
    list.append(2);
    list.append(3);

    list.reverse();
    list.reverse();

    assert_eq!(list.get(0), Some(&1));
    assert_eq!(list.get(1), Some(&2));
    assert_eq!(list.get(2), Some(&3));
}

#[test]
fn doubly_new_list_is_empty() {
    let list: KolzoDoublyLinkedList<i32> = KolzoDoublyLinkedList::new();
    assert_eq!(list.len(), 0);
    assert_eq!(list.get(0), None);
    assert!(list.values().is_empty());
}

#[test]
fn doubly_appends_keep_count_and_order() {
    let mut list: KolzoDoublyLinkedList<i32> = KolzoDoublyLinkedList::new();
    for n in 0..200 {
        list.append(n * 7);
        assert_eq!(list.len(), n as u64 + 1);
    }
    for i in 0..200 {
        assert_eq!(list.get(i), Some(&(i as i32 * 7)));
    }
    assert_eq!(list.get(200), None);
}

#[test]
fn doubly_append_three_then_read_back() {
    let mut list: KolzoDoublyLinkedList<i32> = KolzoDoublyLinkedList::new();
    list.append(1);
    list.append(2);
    list.append(3);
    assert_eq!(list.get(0), Some(&1));
    assert_eq!(list.get(1), Some(&2));
    assert_eq!(list.get(2), Some(&3));
    assert_eq!(list.len(), 3);
}

#[test]
fn doubly_pop_drains_in_reverse_and_list_is_reusable() {
    let mut list = doubly_list_of(&[4, 8, 15, 16, 23, 42]);
    for expected in [42, 23, 16, 15, 8, 4] {
        assert_eq!(list.pop(), Some(expected));
    }
    assert_eq!(list.pop(), None);
    assert_eq!(list.pop(), None);
    assert_eq!(list.len(), 0);

    list.append(7);
    assert_eq!(list.len(), 1);
    assert_eq!(list.get(0), Some(&7));
    list.append(9);
    assert_eq!(doubly_contents(&list), vec![7, 9]);
    assert_eq!(list.pop(), Some(9));
    assert_eq!(list.pop(), Some(7));
    assert_eq!(list.pop(), None);
}

#[test]
fn doubly_pop_on_empty_list_changes_nothing() {
    let mut list: KolzoDoublyLinkedList<i32> = KolzoDoublyLinkedList::new();
    assert_eq!(list.pop(), None);
    assert_eq!(list.len(), 0);
}

#[test]
fn doubly_pop_of_single_element_empties_the_list() {
    let mut list = doubly_list_of(&[5]);
    assert_eq!(list.pop(), Some(5));
    assert_eq!(list.len(), 0);
    assert_eq!(list.get(0), None);
    list.prepend(6);
    assert_eq!(doubly_contents(&list), vec![6]);
}

#[test]
fn doubly_pop_moves_the_tail_back() {
    let mut list = doubly_list_of(&[1, 2, 3]);
    assert_eq!(list.pop(), Some(3));
    list.append(4);
    assert_eq!(doubly_contents(&list), vec![1, 2, 4]);
    assert_eq!(list.len(), 3);
}

#[test]
fn doubly_pop_first_drains_in_insertion_order() {
    let mut list = doubly_list_of(&[4, 8, 15, 16, 23, 42]);
    for (taken, expected) in [4, 8, 15, 16, 23, 42].into_iter().enumerate() {
        assert_eq!(list.pop_first(), Some(expected));
        assert_eq!(list.len(), 5 - taken as u64);
    }
    assert_eq!(list.pop_first(), None);
    assert_eq!(list.len(), 0);
}

#[test]
fn doubly_pop_first_of_last_element_clears_the_tail() {
    let mut list = doubly_list_of(&[1]);
    assert_eq!(list.pop_first(), Some(1));
    assert_eq!(list.len(), 0);
    list.append(2);
    list.append(3);
    assert_eq!(doubly_contents(&list), vec![2, 3]);
}

#[test]
fn doubly_prepend_to_empty_list_sets_the_tail() {
    let mut list: KolzoDoublyLinkedList<i32> = KolzoDoublyLinkedList::new();
    list.prepend(1);
    list.append(2);
    list.prepend(0);
    assert_eq!(doubly_contents(&list), vec![0, 1, 2]);
    assert_eq!(list.len(), 3);
}

#[test]
fn doubly_insert_at_zero_is_prepend() {
    let mut by_insert = doubly_list_of(&[1, 2, 3]);
    let mut by_prepend = doubly_list_of(&[1, 2, 3]);
    by_insert.insert(0, 9);
    by_prepend.prepend(9);
    assert_eq!(doubly_contents(&by_insert), vec![9, 1, 2, 3]);
    assert_eq!(doubly_contents(&by_insert), doubly_contents(&by_prepend));
    assert_eq!(by_insert.len(), by_prepend.len());

    let mut empty_by_insert: KolzoDoublyLinkedList<i32> = KolzoDoublyLinkedList::new();
    let mut empty_by_prepend: KolzoDoublyLinkedList<i32> = KolzoDoublyLinkedList::new();
    empty_by_insert.insert(0, 9);
    empty_by_prepend.prepend(9);
    assert_eq!(doubly_contents(&empty_by_insert), doubly_contents(&empty_by_prepend));
}

#[test]
fn doubly_insert_at_len_is_append() {
    let mut by_insert = doubly_list_of(&[1, 2, 3]);
    let mut by_append = doubly_list_of(&[1, 2, 3]);
    let at = by_insert.len() as i64;
    by_insert.insert(at, 9);
    by_append.append(9);
    assert_eq!(doubly_contents(&by_insert), vec![1, 2, 3, 9]);
    assert_eq!(doubly_contents(&by_insert), doubly_contents(&by_append));
    by_insert.append(10);
    assert_eq!(doubly_contents(&by_insert), vec![1, 2, 3, 9, 10]);
}

#[test]
fn doubly_insert_in_the_middle_counts_the_new_element() {
    let mut list = doubly_list_of(&[10, 20, 30]);
    list.insert(2, 25);
    assert_eq!(doubly_contents(&list), vec![10, 20, 25, 30]);
    assert_eq!(list.len(), 4);
    list.insert(1, 15);
    assert_eq!(doubly_contents(&list), vec![10, 15, 20, 25, 30]);
    assert_eq!(list.len(), 5);
}

#[test]
fn doubly_insert_out_of_range_is_a_no_op() {
    let mut list = doubly_list_of(&[10, 20, 30]);
    list.insert(4, 1);
    list.insert(-1, 1);
    list.insert(i64::MAX, 1);
    list.insert(i64::MIN, 1);
    assert_eq!(doubly_contents(&list), vec![10, 20, 30]);
    assert_eq!(list.len(), 3);
}

#[test]
fn doubly_remove_middle_element() {
    let mut list = doubly_list_of(&[1, 2, 3]);
    list.remove(1);
    assert_eq!(doubly_contents(&list), vec![1, 3]);
    assert_eq!(list.len(), 2);
}

#[test]
fn doubly_remove_last_element_moves_the_tail() {
    let mut list = doubly_list_of(&[1, 2, 3]);
    list.remove(2);
    assert_eq!(doubly_contents(&list), vec![1, 2]);
    list.append(4);
    assert_eq!(doubly_contents(&list), vec![1, 2, 4]);
    assert_eq!(list.len(), 3);
}

#[test]
fn doubly_remove_first_element_counts_once() {
    let mut list = doubly_list_of(&[1, 2, 3]);
    list.remove(0);
    assert_eq!(doubly_contents(&list), vec![2, 3]);
    assert_eq!(list.len(), 2);
}

#[test]
fn doubly_remove_only_element_empties_the_list() {
    let mut list = doubly_list_of(&[1]);
    list.remove(0);
    assert_eq!(list.len(), 0);
    assert_eq!(list.pop(), None);
    list.append(2);
    assert_eq!(doubly_contents(&list), vec![2]);
}

#[test]
fn doubly_remove_at_len_is_out_of_range() {
    let mut list = doubly_list_of(&[1, 2, 3]);
    list.remove(3);
    list.remove(-1);
    list.remove(i64::MAX);
    list.remove(i64::MIN);
    assert_eq!(doubly_contents(&list), vec![1, 2, 3]);
    assert_eq!(list.len(), 3);
}

#[test]
fn doubly_set_returns_old_value_and_stores_new() {
    let mut list = doubly_list_of(&[10, 20, 30]);
    assert_eq!(list.set(1, 25), Some(20));
    assert_eq!(list.get(1), Some(&25));
    assert_eq!(doubly_contents(&list), vec![10, 25, 30]);
    assert_eq!(list.len(), 3);
}

#[test]
fn doubly_out_of_range_get_and_set_change_nothing() {
    let mut list = doubly_list_of(&[10, 20, 30]);
    for index in [-1, 3, 4, i64::MAX, i64::MIN] {
        assert_eq!(list.get(index), None);
        assert_eq!(list.set(index, 99), None);
        assert_eq!(list.len(), 3);
        assert_eq!(doubly_contents(&list), vec![10, 20, 30]);
    }
}

#[test]
fn doubly_reverse_twice_restores_every_index() {
    let original = [3, 1, 4, 1, 5, 9, 2, 6];
    let mut list = doubly_list_of(&original);
    list.reverse();
    assert_eq!(doubly_contents(&list), vec![6, 2, 9, 5, 1, 4, 1, 3]);
    list.reverse();
    for (i, v) in original.iter().enumerate() {
        assert_eq!(list.get(i as i64), Some(v));
    }
    assert_eq!(list.len(), 8);
}

#[test]
fn doubly_reverse_exchanges_head_and_tail() {
    let mut list = doubly_list_of(&[1, 2, 3]);
    list.reverse();
    list.append(0);
    list.prepend(4);
    assert_eq!(doubly_contents(&list), vec![4, 3, 2, 1, 0]);
    assert_eq!(list.pop(), Some(0));
    assert_eq!(list.pop_first(), Some(4));
    assert_eq!(doubly_contents(&list), vec![3, 2, 1]);
}

#[test]
fn doubly_values_walk_first_to_last() {
    let list = doubly_list_of(&[7, 8, 9]);
    let walk = list.values();
    assert_eq!(walk, vec![&7, &8, &9]);
}

#[test]
fn doubly_freed_nodes_are_reused_without_mixing_values() {
    let mut list: KolzoDoublyLinkedList<i32> = KolzoDoublyLinkedList::new();
    let mut expected: Vec<i32> = Vec::new();
    for round in 0..50 {
        list.append(round);
        expected.push(round);
        list.prepend(-round);
        expected.insert(0, -round);
        if round % 3 == 0 {
            assert_eq!(list.pop(), expected.pop());
        }
        if round % 4 == 0 {
            assert_eq!(list.pop_first(), Some(expected.remove(0)));
        }
        if round % 5 == 0 && expected.len() > 2 {
            list.remove(1);
            expected.remove(1);
            list.insert(2, round * 100);
            expected.insert(2, round * 100);
        }
        assert_eq!(list.len(), expected.len() as u64);
        assert_eq!(doubly_contents(&list), expected);
    }
}

#[test]
fn doubly_holds_values_that_are_not_copy() {
    let mut list: KolzoDoublyLinkedList<String> = KolzoDoublyLinkedList::new();
    list.append(String::from("b"));
    list.prepend(String::from("a"));
    list.insert(2, String::from("c"));
    assert_eq!(list.set(1, String::from("B")), Some(String::from("b")));
    assert_eq!(list.get(1), Some(&String::from("B")));
    assert_eq!(list.pop(), Some(String::from("c")));
    assert_eq!(list.pop_first(), Some(String::from("a")));
    assert_eq!(list.len(), 1);
}
