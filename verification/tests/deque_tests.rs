use meta_alloc::deque_list::{LinkedDeque, Node};

fn from_slice(values: &[i32]) -> LinkedDeque<i32> {
    let mut list: LinkedDeque<i32> = LinkedDeque::default();
    for &v in values {
        list.push_back(Node::new(v));
    }
    list
}

fn drain(mut list: LinkedDeque<i32>) -> Vec<i32> {
    let mut out = Vec::new();
    while let Some(n) = list.pop_front() {
        out.push(*n.elem());
    }
    out
}

#[test]
fn node_holds_its_element() {
    let mut n = Node::new(7);
    assert_eq!(*n.elem(), 7);
    *n.elem_mut() = 9;
    assert_eq!(*n.elem(), 9);
}

#[test]
fn push_and_pop_both_ends() {
    let mut list: LinkedDeque<i32> = LinkedDeque::default();
    assert!(list.empty());
    assert_eq!(list.len(), 0);
    list.push_back(Node::new(2));
    list.push_front(Node::new(1));
    list.push_back(Node::new(3));
    assert_eq!(list.len(), 3);
    assert!(!list.empty());
    assert_eq!(*list.pop_front().unwrap().elem(), 1);
    assert_eq!(*list.pop_back().unwrap().elem(), 3);
    assert_eq!(*list.pop_back().unwrap().elem(), 2);
    assert!(list.pop_front().is_none());
    assert!(list.pop_back().is_none());
}

#[test]
fn cursor_walks_and_wraps() {
    let list = from_slice(&[10, 20, 30]);
    let mut c = list.cursor_mut();
    assert_eq!(c.index(), None);
    c.move_next(&list);
    assert_eq!(c.index(), Some(0));
    assert_eq!(*c.current(&list).unwrap(), 10);
    c.move_next(&list);
    c.move_next(&list);
    assert_eq!(c.index(), Some(2));
    c.move_next(&list);
    assert_eq!(c.index(), None);
    c.move_prev(&list);
    assert_eq!(c.index(), Some(2));
    assert_eq!(*c.current(&list).unwrap(), 30);
    c.move_prev(&list);
    c.move_prev(&list);
    assert_eq!(c.index(), Some(0));
    c.move_prev(&list);
    assert_eq!(c.index(), None);
    assert!(c.current(&list).is_none());
}

#[test]
fn peeks_wrap_around() {
    let list = from_slice(&[1, 2, 3]);
    let mut c = list.cursor_mut();
    assert_eq!(*c.peek_next(&list).unwrap(), 1);
    assert_eq!(*c.peek_previous(&list).unwrap(), 3);
    c.move_next(&list);
    assert_eq!(*c.peek_next(&list).unwrap(), 2);
    assert_eq!(*c.peek_previous(&list).unwrap(), 3);
    c.move_next(&list);
    c.move_next(&list);
    assert_eq!(c.index(), Some(2));
    assert_eq!(*c.peek_next(&list).unwrap(), 1);
    assert_eq!(*c.peek_previous(&list).unwrap(), 2);
}

#[test]
fn insert_before_splices() {
    let mut list = from_slice(&[1, 3]);
    let mut c = list.cursor_mut();
    c.move_next(&list);
    c.move_next(&list);
    assert_eq!(c.index(), Some(1));
    c.insert_before(&mut list, Node::new(2));
    assert_eq!(c.index(), Some(2));
    assert_eq!(*c.current(&list).unwrap(), 3);
    let mut c2 = list.cursor_mut();
    c2.insert_before(&mut list, Node::new(0));
    assert_eq!(c2.index(), Some(0));
    assert_eq!(drain(list), vec![0, 1, 2, 3]);
}

#[test]
fn remove_advances_to_follower() {
    let mut list = from_slice(&[1, 2, 3]);
    let mut c = list.cursor_mut();
    c.move_next(&list);
    c.move_next(&list);
    let n = c.remove(&mut list).unwrap();
    assert_eq!(*n.elem(), 2);
    assert_eq!(c.index(), Some(1));
    assert_eq!(*c.current(&list).unwrap(), 3);
    let n2 = c.remove(&mut list).unwrap();
    assert_eq!(*n2.elem(), 3);
    assert_eq!(c.index(), None);
    let none = c.remove(&mut list);
    assert!(none.is_none());
    assert_eq!(c.index(), Some(0));
    assert_eq!(drain(list), vec![1]);
}

#[test]
fn splits_partition_the_list() {
    let mut list = from_slice(&[1, 2, 3, 4]);
    let mut c = list.cursor_mut();
    c.move_next(&list);
    c.move_next(&list);
    let front = c.split_before(&mut list);
    assert_eq!(c.index(), Some(0));
    assert_eq!(drain(front), vec![1]);
    assert_eq!(list.len(), 3);

    let mut c2 = list.cursor_mut();
    c2.move_next(&list);
    let tail = c2.split_after(&mut list);
    assert_eq!(c2.index(), Some(0));
    assert_eq!(drain(tail), vec![3, 4]);
    assert_eq!(drain(list), vec![2]);
}

#[test]
fn split_at_ghost_takes_everything() {
    let mut list = from_slice(&[5, 6]);
    let mut c = list.cursor_mut();
    let all = c.split_before(&mut list);
    assert_eq!(list.len(), 0);
    assert_eq!(drain(all), vec![5, 6]);
}
