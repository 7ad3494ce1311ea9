use index_list::{IndexList, ListIndex};

fn collect(list: &IndexList<u64>) -> Vec<u64> {
    let mut out = Vec::new();
    let mut index = list.first_index();
    while index.is_some() {
        out.push(*list.get(index).unwrap());
        index = list.next_index(index);
    }
    out
}

fn collect_backwards(list: &IndexList<u64>) -> Vec<u64> {
    let mut out = Vec::new();
    let mut index = list.last_index();
    while index.is_some() {
        out.push(*list.get(index).unwrap());
        index = list.prev_index(index);
    }
    out
}

#[test]
fn traversal_counts_and_reverse_order() {
    let mut list = IndexList::<u64>::new();
    for i in 0..5 {
        list.insert_last(i);
    }
    list.remove(list.move_index(list.first_index(), 2));
    assert!(list.len() <= list.capacity());
    let forward = collect(&list);
    assert_eq!(forward.len(), list.len());
    let mut backward = collect_backwards(&list);
    assert_eq!(backward.len(), list.len());
    backward.reverse();
    assert_eq!(forward, backward);
    assert_eq!(forward, vec![0, 1, 3, 4]);
}

#[test]
fn insert_before_links_to_old_predecessor() {
    let mut list = IndexList::<u64>::new();
    list.insert_last(10);
    let middle = list.insert_last(20);
    list.insert_last(30);
    let before_middle = list.prev_index(middle);
    let new_index = list.insert_before(middle, 15);
    assert_eq!(list.prev_index(new_index), before_middle);
    assert_eq!(collect(&list), vec![10, 15, 20, 30]);

    let first = list.first_index();
    let new_front = list.insert_before(first, 5);
    assert!(list.prev_index(new_front).is_none());
    assert_eq!(list.first_index(), new_front);
}

#[test]
fn insert_after_and_null_handles() {
    let mut list = IndexList::<u64>::new();
    let null = ListIndex::from(None);
    let a = list.insert_after(null, 2); // empty: insert last
    assert_eq!(list.get_last(), Some(&2));
    list.insert_before(null, 1); // null: insert first
    list.insert_after(a, 3);
    assert_eq!(collect(&list), vec![1, 2, 3]);
}

#[test]
fn shift_to_front_preserves_value() {
    let mut list = IndexList::<u64>::new();
    list.insert_last(1);
    list.insert_last(2);
    let h = list.insert_last(3);
    assert!(list.shift_index_to_front(h));
    assert_eq!(list.get(h), Some(&3));
    assert_eq!(list.first_index(), h);
    assert_eq!(collect(&list), vec![3, 1, 2]);
    // an invalid handle fails and changes nothing
    list.remove(h);
    assert!(!list.shift_index_to_front(h));
    assert_eq!(collect(&list), vec![1, 2]);
}

#[test]
fn shift_to_back_and_between() {
    let mut list = IndexList::<u64>::new();
    let a = list.insert_last(1);
    let b = list.insert_last(2);
    let c = list.insert_last(3);
    assert!(list.shift_index_to_back(a));
    assert_eq!(collect(&list), vec![2, 3, 1]);
    assert!(list.shift_index_after(b, a));
    assert_eq!(collect(&list), vec![3, 1, 2]);
    assert!(list.shift_index_before(c, b));
    assert_eq!(collect(&list), vec![1, 3, 2]);
    // shifting an element relative to itself fails
    assert!(!list.shift_index_before(a, a));
    assert_eq!(collect(&list), vec![1, 3, 2]);
}

#[test]
fn ordered_sequence_round_trip() {
    let mut numbers = vec![4u64, 8, 15, 16, 23, 42];
    let kept = numbers.clone();
    let list = IndexList::from(&mut numbers);
    assert_eq!(numbers.len(), 0);
    assert_eq!(list.len(), kept.len());
    let read_back: Vec<u64> = list.to_vec().into_iter().copied().collect();
    assert_eq!(read_back, kept);
}

#[test]
fn scenario_shift_then_remove() {
    let mut list = IndexList::<u64>::new();
    let one = list.insert_last(1);
    list.insert_last(2);
    list.insert_last(3);
    assert_eq!(collect(&list), vec![1, 2, 3]);
    assert!(list.shift_index_before(one, list.last_index()));
    assert_eq!(collect(&list), vec![2, 1, 3]);
    assert_eq!(list.remove_first(), Some(2));
    assert_eq!(collect(&list), vec![1, 3]);
}

#[test]
fn scenario_append_lists() {
    let mut list = IndexList::from(&mut vec!["A", "B", "C"]);
    let mut other = IndexList::from(&mut vec!["D", "E", "F"]);
    list.append(&mut other);
    assert_eq!(list.len(), 6);
    assert!(other.is_empty());
    assert_eq!(list.to_string(), "[A >< B >< C >< D >< E >< F]");
}

#[test]
fn prepend_keeps_order() {
    let mut list = IndexList::from(&mut vec![16u64, 23, 42]);
    let mut other = IndexList::from(&mut vec![4u64, 8, 15]);
    list.prepend(&mut other);
    assert!(other.is_empty());
    assert_eq!(collect(&list), vec![4, 8, 15, 16, 23, 42]);
}

#[test]
fn trim_safe_keeps_handles() {
    let mut list = IndexList::<u64>::new();
    let a = list.insert_last(1);
    let b = list.insert_last(2);
    let c = list.insert_last(3);
    // a middle hole is not trailing: nothing shrinks, handles survive
    list.remove(b);
    list.trim_safe();
    assert_eq!(list.capacity(), 3);
    assert_eq!(list.get(a), Some(&1));
    assert_eq!(list.get(c), Some(&3));
    assert!(list.capacity() != list.len());
    // a trailing hole is trimmed away
    list.remove(c);
    list.trim_safe();
    assert_eq!(list.capacity(), 1);
    assert_eq!(list.get(a), Some(&1));
    assert_eq!(collect(&list), vec![1]);
}

#[test]
fn trim_swap_compacts_to_length() {
    let mut list = IndexList::from(&mut vec![4u64, 8, 15, 16, 23, 42]);
    list.remove_first();
    list.remove(list.move_index(list.first_index(), 1));
    assert!(list.len() < list.capacity());
    let mut before = collect(&list);
    list.trim_swap();
    assert_eq!(list.capacity(), list.len());
    let mut after = collect(&list);
    assert_eq!(after, before);
    before.sort();
    after.sort();
    assert_eq!(after, before);
}

#[test]
fn move_index_stops_at_the_ends() {
    let list = IndexList::from(&mut vec!["A", "B", "C", "D", "E"]);
    let mut index = list.first_index();
    index = list.move_index(index, 3);
    assert_eq!(list.get(index), Some(&"D"));
    index = list.move_index(index, -2);
    assert_eq!(list.get(index), Some(&"B"));
    index = list.move_index(index, -2);
    assert!(index.is_none());
    // off the far end likewise
    let past = list.move_index(list.first_index(), 5);
    assert!(past.is_none());
    // a null start enters the list from the matching end
    assert_eq!(list.get(list.move_index(ListIndex::from(None), 1)), Some(&"A"));
    assert_eq!(list.get(list.move_index(ListIndex::from(None), -1)), Some(&"E"));
}

#[test]
fn peeks_either_side() {
    let list = IndexList::from(&mut vec![1u64, 2, 3]);
    let index = list.first_index();
    assert_eq!(list.peek_next(index), Some(&2));
    assert_eq!(list.peek_prev(index), None);
    let last = list.last_index();
    assert_eq!(list.peek_prev(last), Some(&2));
    assert_eq!(list.peek_next(last), None);
}

#[test]
fn contains_and_index_of_scan_storage() {
    let mut list = IndexList::from(&mut vec![10u64, 20, 30]);
    assert!(list.contains(20));
    assert!(!list.contains(99));
    assert_eq!(list.index_of(20), ListIndex::from(1u32));
    // index_of reports the lowest slot, not the first in list order
    let first = list.first_index();
    assert!(list.shift_index_to_back(first));
    // list order is now [20, 30, 10], but 10 still sits in slot 0
    assert_eq!(list.index_of(10), ListIndex::from(0u32));
    assert_eq!(list.index_of(99), ListIndex::from(None));
}

#[test]
fn swap_index_exchanges_values() {
    let mut list = IndexList::<u64>::new();
    let a = list.insert_first(1);
    let b = list.insert_last(2);
    list.swap_index(list.first_index(), list.last_index());
    assert_eq!(list.get_first(), Some(&2));
    assert_eq!(list.get_last(), Some(&1));
    assert_eq!(list.get(a), Some(&2));
    assert_eq!(list.get(b), Some(&1));
    // invalid handles change nothing
    list.swap_index(a, ListIndex::from(None));
    assert_eq!(list.get(a), Some(&2));
}

#[test]
fn split_at_invalid_handle_is_empty() {
    let mut list = IndexList::from(&mut vec![1u64, 2, 3]);
    let other = list.split(ListIndex::from(None));
    assert_eq!(other.len(), 0);
    assert_eq!(collect(&list), vec![1, 2, 3]);
}

#[test]
fn split_moves_suffix() {
    let mut list = IndexList::from(&mut vec![4u64, 8, 15, 16, 23, 42]);
    let mut index = list.first_index();
    index = list.move_index(index, 3);
    let other = list.split(index);
    assert_eq!(collect(&list), vec![4, 8, 15]);
    assert_eq!(other.len(), 3);
    assert_eq!(*other.get_first().unwrap(), 16);
    assert_eq!(*other.get_last().unwrap(), 42);
}

#[test]
fn clear_forgets_all_handles() {
    let mut list = IndexList::<u64>::new();
    let a = list.insert_first(7);
    list.clear();
    assert!(list.is_empty());
    assert_eq!(list.capacity(), 0);
    assert_eq!(list.get(a), None);
    assert!(!list.is_index_used(a));
}

#[test]
fn freed_slot_is_reused() {
    let mut list = IndexList::<u64>::new();
    list.insert_last(1);
    let b = list.insert_last(2);
    list.insert_last(3);
    list.remove(b);
    // the next insertion recycles the freed slot, so the stale handle
    // silently names the new occupant
    let c = list.insert_last(4);
    assert_eq!(b, c);
    assert_eq!(list.get(b), Some(&4));
    assert_eq!(list.capacity(), 3);
}

#[test]
fn read_cursor_converges_without_double_yield() {
    let list = IndexList::from(&mut vec![1u64, 2, 3]);
    let mut it = list.iter();
    assert_eq!(it.size_hint(), (3, Some(3)));
    assert_eq!(it.next(&list), Some(&1));
    assert_eq!(it.next_back(&list), Some(&3));
    assert_eq!(it.next(&list), Some(&2));
    assert_eq!(it.next(&list), None);
    assert_eq!(it.next_back(&list), None);
    assert_eq!(it.size_hint(), (0, Some(0)));
}

#[test]
fn drain_cursor_empties_the_list() {
    let mut list = IndexList::from(&mut vec![1u64, 2, 3, 4]);
    let mut drain = list.drain_iter();
    assert_eq!(drain.next(&mut list), Some(1));
    assert_eq!(drain.next_back(&mut list), Some(4));
    drain.finish(&mut list);
    assert!(list.is_empty());
}

#[test]
fn rendering_edge_cases() {
    let empty = IndexList::<String>::new();
    assert_eq!(empty.to_string(), "[]");
    let single = IndexList::from(&mut vec![String::from("a")]);
    assert_eq!(single.to_string(), "[a]");
}

#[test]
fn handle_basics() {
    let null = ListIndex::new();
    assert!(null.is_none());
    assert!(!null.is_some());
    assert_eq!(null, ListIndex::default());
    assert_eq!(ListIndex::from(5u32).get(), Some(5));
    assert_eq!(ListIndex::from(5u64).get(), Some(5));
    assert_eq!(ListIndex::from(5usize).get(), Some(5));
    assert_eq!(ListIndex::from(Some(5usize)).get(), Some(5));
    assert_eq!(ListIndex::from(None).get(), None);
    // slot numbers too large for the backing word degrade to the null handle
    assert!(ListIndex::from(u32::MAX).is_none());
    assert!(ListIndex::from(u64::MAX).is_none());
    assert_eq!(null.set(Some(3)).get(), Some(3));
    assert_eq!(ListIndex::from(3u32).set(None).get(), Some(3));
}

#[test]
fn with_capacity_reserves_without_slots() {
    let list = IndexList::<u64>::with_capacity(233);
    assert_eq!(list.capacity(), 0);
    assert_eq!(list.len(), 0);
    assert!(list.is_empty());
}
