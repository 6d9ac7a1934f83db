use kernel::data_struct::LinkedList;

fn values(list: &LinkedList<i32>) -> Vec<i32> {
    match list.get_front() {
        Some(front) => list.foreach(front).iter().map(|i| *list.get(*i).unwrap()).collect(),
        None => Vec::new(),
    }
}

#[test]
fn linked_list_insertions() {
    let mut list: LinkedList<i32> = LinkedList::new();
    assert!(list.get_front().is_none());
    assert!(values(&list).is_empty());
    let c = list.insert_front(3);
    let a = list.insert_front(1);
    assert_eq!(values(&list), vec![1, 3]);
    let b = list.insert_before(c, 2);
    assert_eq!(values(&list), vec![1, 2, 3]);
    let d = list.insert_after(c, 4);
    assert_eq!(values(&list), vec![1, 2, 3, 4]);
    let z = list.insert_before(a, 0);
    assert_eq!(values(&list), vec![0, 1, 2, 3, 4]);
    assert_eq!(list.get_front(), Some(z));
    let m = list.insert_after(a, 10);
    assert_eq!(values(&list), vec![0, 1, 10, 2, 3, 4]);
    assert_eq!(list.get_next(a), Some(m));
    assert_eq!(list.get_prev(b), Some(m));
    assert_eq!(list.get_prev(z), None);
    assert_eq!(list.get_next(d), None);
    assert_eq!(*list.get(m).unwrap(), 10);
    assert!(list.get(100).is_none());
}

#[test]
fn linked_list_sizes() {
    let mut list: LinkedList<i32> = LinkedList::new();
    let a = list.insert_front(1);
    assert_eq!(list.left_size(a), 1);
    assert_eq!(list.right_size(a), 1);
    let b = list.insert_after(a, 2);
    let c = list.insert_after(b, 3);
    assert_eq!((list.left_size(a), list.right_size(a)), (1, 3));
    assert_eq!((list.left_size(b), list.right_size(b)), (2, 2));
    assert_eq!((list.left_size(c), list.right_size(c)), (3, 1));
    assert_eq!(list.foreach(b), vec![b, c]);
    assert_eq!(list.foreach(c), vec![c]);
}

#[test]
fn linked_list_unlink() {
    let mut list: LinkedList<i32> = LinkedList::new();
    let a = list.insert_front(1);
    let b = list.insert_after(a, 2);
    let c = list.insert_after(b, 3);
    assert_eq!(list.unlink(b), 2);
    assert_eq!(values(&list), vec![1, 3]);
    assert!(list.get(b).is_none());
    assert_eq!(list.get_next(a), Some(c));
    assert_eq!(list.get_prev(c), Some(a));
    assert_eq!(list.unlink(a), 1);
    assert_eq!(list.get_front(), Some(c));
    assert_eq!(list.get_prev(c), None);
    // A free place is used again, and the other nodes keep theirs.
    let d = list.insert_front(4);
    assert!(d == a || d == b);
    assert_eq!(*list.get(c).unwrap(), 3);
    assert_eq!(values(&list), vec![4, 3]);
    assert_eq!(list.unlink(c), 3);
    assert_eq!(list.unlink(d), 4);
    assert!(list.get_front().is_none());
    assert!(values(&list).is_empty());
    let e = list.insert_front(5);
    assert_eq!(list.left_size(e), 1);
}
