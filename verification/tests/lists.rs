use rusty_mos::utils::array_based_list::ArrayLinkedList;
use rusty_mos::utils::bitmap::Bitmap;
use rusty_mos::utils::linked_list::{LinkList, LinkNode};

#[test]
fn test_linklist() {
    let mut nodes: Vec<LinkNode<u32>> = (0..5).map(|d| LinkNode::new(d as u32)).collect();
    let mut ll = LinkList::<u32>::new();

    ll.insert_head(&mut nodes, 1);
    ll.remove(&mut nodes, 1);
    assert_eq!(ll.pop_head(&mut nodes), None);

    ll.insert_head(&mut nodes, 3);
    ll.insert_head(&mut nodes, 4);
    ll.insert_head(&mut nodes, 2);
    assert_eq!(ll.pop_head(&mut nodes), Some(2));
    assert_eq!(ll.pop_head(&mut nodes), Some(4));
    assert_eq!(ll.pop_head(&mut nodes), Some(3));
    assert_eq!(ll.pop_head(&mut nodes), None);

    ll.insert_head(&mut nodes, 3);
    ll.insert_head(&mut nodes, 4);
    ll.insert_head(&mut nodes, 2);
    ll.remove(&mut nodes, 4);
    assert_eq!(ll.pop_head(&mut nodes), Some(2));
    assert!(nodes[3].prev.is_none());
    ll.remove(&mut nodes, 3);
    assert_eq!(ll.pop_head(&mut nodes), None);
    assert_eq!(nodes[3].data, 3);
}

#[test]
fn test_tailq() {
    let data = [0u32, 123, 234, 345, 456, 567, 678];
    let mut q1 = ArrayLinkedList::<7>::new();
    q1.insert_head(1);
    q1.insert_head(2);
    q1.insert_head(3);
    q1.insert_head(4);
    assert_eq!(data[q1.pop_head().unwrap()], 456);
    assert_eq!(data[q1.pop_head().unwrap()], 345);
    assert_eq!(data[q1.pop_head().unwrap()], 234);
    q1.insert_head(3);
    assert_eq!(data[q1.pop_head().unwrap()], 345);
    assert_eq!(data[q1.pop_head().unwrap()], 123);
    assert!(q1.empty());

    let mut q2 = ArrayLinkedList::<7>::new();
    assert!(q2.pop_head().is_none());
    q2.insert_tail(5);
    q2.insert_tail(6);
    q2.insert_head(4);
    assert_eq!(data[q2.pop_head().unwrap()], 456);
    assert_eq!(data[q2.pop_head().unwrap()], 567);
    assert_eq!(data[q2.pop_head().unwrap()], 678);
    assert!(q2.empty());

    let mut q3 = ArrayLinkedList::<7>::new();
    q3.insert_head(3);
    q3.remove(3);
    assert!(q3.empty());
    q3.insert_tail(3);
    q3.insert_tail(4);
    q3.remove(4);
    q3.insert_head(5);
    q3.remove(3);
    assert_eq!(data[q3.pop_head().unwrap()], 567);
    assert!(q3.empty());
    q3.insert_head(4);
    q3.insert_tail(5);
    q3.insert_tail(6);
    q3.remove(5);
    assert_eq!(data[q3.pop_head().unwrap()], 456);
    assert_eq!(data[q3.pop_head().unwrap()], 678);
}

#[test]
fn insert_head_then_pop_restores() {
    let mut l = ArrayLinkedList::<10>::new();
    l.insert_tail(1);
    l.insert_tail(2);
    l.insert_head(7);
    assert_eq!(l.peek_head(), Some(7));
    assert_eq!(l.pop_head(), Some(7));
    assert_eq!(l.pop_head(), Some(1));
    assert_eq!(l.pop_head(), Some(2));
    assert_eq!(l.pop_head(), None);
}

#[test]
fn removed_item_is_gone() {
    let mut l = ArrayLinkedList::<10>::new();
    l.insert_tail(3);
    l.insert_tail(4);
    l.insert_tail(5);
    l.remove(4);
    assert!(!l.contains(4));
    assert!(l.contains(3) && l.contains(5));
    assert_eq!(l.pop_head(), Some(3));
    assert_eq!(l.pop_head(), Some(5));
}

#[test]
fn bitmap_allocates_in_order_and_frees() {
    let mut b = Bitmap::<2>::new();
    assert!(!b.empty());
    assert_eq!(b.allocate(), Some(0));
    assert_eq!(b.allocate(), Some(1));
    assert!(!b.peek(0));
    assert!(b.peek(2));
    b.free(0);
    assert!(b.peek(0));
    assert_eq!(b.allocate(), Some(2));
}

#[test]
fn bitmap_fills_up() {
    let mut b = Bitmap::<1>::new();
    for i in 0..8 {
        assert_eq!(b.allocate(), Some(i));
    }
    assert!(b.empty());
    assert_eq!(b.allocate(), None);
    b.free(5);
    assert_eq!(b.allocate(), Some(5));
}
