use index_list::{Index, IndexList, ListEnds, ListIndex, ListNode};
use std::mem::size_of;

#[test]
fn test_struct_sizes() {
    assert_eq!(size_of::<ListIndex>(), 4);
    assert_eq!(size_of::<ListNode>(), 8);
    assert_eq!(size_of::<ListEnds>(), 8);
    assert_eq!(size_of::<IndexList<u32>>(), 72);
}

#[test]
fn test_index_alias() {
    let list = IndexList::from(&mut vec![1, 2, 3]);
    let ndx: Index = list.first_index();
    assert_eq!(ndx.get(), Some(0));
    assert_eq!(list.get(ndx), Some(&1));
}
