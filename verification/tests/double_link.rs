use rlru::double_link::{DoubleLink, Node};

#[test]
fn double_link_basics() {
    let mut list = DoubleLink::new();

    // Check empty list behaves right
    assert_eq!(list.pop_head(), None);

    // Populate list
    list.push_head(1);
    list.push_head(2);
    list.push_head(3);

    // Check normal removal
    assert_eq!(list.pop_head(), Some(3));
    assert_eq!(list.pop_head(), Some(2));

    // Push some more just to make sure nothing's corrupted
    list.push_head(4);
    list.push_head(5);

    // Check normal removal
    assert_eq!(list.pop_head(), Some(5));
    assert_eq!(list.pop_head(), Some(4));

    // Check exhaustion
    assert_eq!(list.pop_head(), Some(1));
    assert_eq!(list.pop_head(), None);
}

#[test]
fn backwards() {
    let mut list = DoubleLink::new();

    // Populate list
    list.push_tail(1);
    list.push_tail(2);
    list.push_tail(3);

    // check tailwards removal
    assert_eq!(list.pop_tail(), Some(3));
    assert_eq!(list.pop_tail(), Some(2));

    // push after pops
    list.push_tail(4).push_tail(5);
    assert_eq!(list.pop_tail(), Some(5));
    assert_eq!(list.pop_tail(), Some(4));

    assert_eq!(list.pop_tail(), Some(1));
    assert_eq!(list.pop_tail(), None);
}

#[test]
fn peek() {
    let mut list = DoubleLink::new();
    assert!(list.peek_head().is_none());
    assert!(list.peek_tail().is_none());
    assert!(list.peek_head_mut().is_none());
    assert!(list.peek_tail_mut().is_none());

    list.push_head(1);
    list.push_head(2);
    list.push_head(3);

    assert_eq!(&*list.peek_head().unwrap(), &3);
    assert_eq!(&mut *list.peek_head_mut().unwrap(), &mut 3);
    assert_eq!(&*list.peek_tail().unwrap(), &1);
    assert_eq!(&mut *list.peek_tail_mut().unwrap(), &mut 1);
}

#[test]
fn double_link_into_iter() {
    let mut list = DoubleLink::new();
    list.push_head(1);
    list.push_head(2);
    list.push_head(3);

    let mut iter = list.into_iter();
    assert_eq!(iter.next(), Some(3));
    assert_eq!(iter.next_back(), Some(1));
    assert_eq!(iter.next(), Some(2));
    assert_eq!(iter.next_back(), None);
    assert_eq!(iter.next(), None);
}

fn drain(list: DoubleLink<i32>) -> Vec<i32> {
    let mut iter = list.into_iter();
    let mut out = Vec::new();
    while let Some(x) = iter.next() {
        out.push(x);
    }
    out
}

#[test]
fn node_new_holds_the_element() {
    let mut list = DoubleLink::new();
    list.push_head(Node::new(7));
    assert_eq!(list.len(), 1);
}

#[test]
fn pushes_at_both_ends_keep_order() {
    let mut list = DoubleLink::new();
    list.push_head(2).push_head(1);
    list.push_tail(3).push_tail(4);
    assert_eq!(list.len(), 4);
    assert_eq!(drain(list), vec![1, 2, 3, 4]);
}

#[test]
fn pops_from_both_ends_meet_in_the_middle() {
    let mut list = DoubleLink::new();
    list.push_tail(1).push_tail(2).push_tail(3);
    assert_eq!(list.pop_head(), Some(1));
    assert_eq!(list.pop_tail(), Some(3));
    assert_eq!(list.pop_tail(), Some(2));
    assert_eq!(list.pop_head(), None);
    assert_eq!(list.pop_tail(), None);
    assert_eq!(list.len(), 0);
    assert_eq!(list.head_handle(), None);
    assert_eq!(list.tail_handle(), None);
}

#[test]
fn unlink_of_an_interior_node_joins_its_neighbours() {
    let mut list = DoubleLink::new();
    list.push_tail(1);
    list.push_tail(2);
    let middle = list.tail_handle().unwrap();
    list.push_tail(3);
    assert_eq!(list.unlink(middle), 2);
    assert_eq!(list.count_forward(), 2);
    assert_eq!(list.count_backward(), 2);
    assert_eq!(drain(list), vec![1, 3]);
}

#[test]
fn unlink_of_the_head_makes_the_next_node_head() {
    let mut list = DoubleLink::new();
    list.push_tail(1).push_tail(2).push_tail(3);
    let head = list.head_handle().unwrap();
    assert_eq!(list.unlink(head), 1);
    assert_eq!(list.peek_head(), Some(&2));
    assert_eq!(list.peek_tail(), Some(&3));
    assert_eq!(drain(list), vec![2, 3]);
}

#[test]
fn unlink_of_the_tail_makes_the_previous_node_tail() {
    let mut list = DoubleLink::new();
    list.push_tail(1).push_tail(2).push_tail(3);
    let tail = list.tail_handle().unwrap();
    assert_eq!(list.unlink(tail), 3);
    assert_eq!(list.peek_head(), Some(&1));
    assert_eq!(list.peek_tail(), Some(&2));
    assert_eq!(drain(list), vec![1, 2]);
}

#[test]
fn unlink_of_the_only_node_empties_the_list() {
    let mut list = DoubleLink::new();
    list.push_head(9);
    let only = list.head_handle().unwrap();
    assert_eq!(list.unlink(only), 9);
    assert_eq!(list.len(), 0);
    assert!(list.peek_head().is_none());
    assert!(list.peek_tail().is_none());
    assert_eq!(list.count_forward(), 0);
    assert_eq!(list.count_backward(), 0);
}

#[test]
fn promote_moves_a_node_to_the_head_under_the_same_handle() {
    let mut list = DoubleLink::new();
    list.push_tail(1);
    list.push_tail(2);
    let second = list.tail_handle().unwrap();
    list.push_tail(3);
    list.promote(second);
    assert_eq!(list.head_handle(), Some(second));
    assert_eq!(list.get(second), &2);
    assert_eq!(list.len(), 3);
    assert_eq!(drain(list), vec![2, 1, 3]);
}

#[test]
fn promote_of_the_tail_and_of_the_head() {
    let mut list = DoubleLink::new();
    list.push_tail(1).push_tail(2).push_tail(3);
    let tail = list.tail_handle().unwrap();
    list.promote(tail);
    assert_eq!(list.peek_tail(), Some(&2));
    let head = list.head_handle().unwrap();
    assert_eq!(head, tail);
    list.promote(head);
    assert_eq!(drain(list), vec![3, 1, 2]);
}

#[test]
fn handles_survive_the_removal_of_other_nodes() {
    let mut list = DoubleLink::new();
    list.push_tail(10);
    let first = list.tail_handle().unwrap();
    list.push_tail(20);
    let second = list.tail_handle().unwrap();
    list.push_tail(30);
    let third = list.tail_handle().unwrap();
    assert_eq!(list.unlink(second), 20);
    list.push_head(40);
    assert_eq!(list.get(first), &10);
    assert_eq!(list.get(third), &30);
    assert_eq!(drain(list), vec![40, 10, 30]);
}

#[test]
fn writes_through_the_mutable_accessors_stay() {
    let mut list = DoubleLink::new();
    list.push_tail(1).push_tail(2).push_tail(3);
    *list.peek_head_mut().unwrap() = 10;
    *list.peek_tail_mut().unwrap() = 30;
    let middle = list.head_handle().unwrap();
    list.promote(list.tail_handle().unwrap());
    *list.get_mut(middle) += 5;
    assert_eq!(drain(list), vec![30, 15, 2]);
}

#[test]
fn both_walks_count_what_len_reports() {
    let mut list = DoubleLink::new();
    for i in 0..7 {
        list.push_head(i);
        assert_eq!(list.count_forward(), list.len());
        assert_eq!(list.count_backward(), list.len());
    }
    for _ in 0..3 {
        list.pop_tail();
        assert_eq!(list.count_forward(), list.len());
        assert_eq!(list.count_backward(), list.len());
    }
    for i in 0..2 {
        list.push_tail(i);
    }
    assert_eq!(list.len(), 6);
    assert_eq!(list.count_forward(), 6);
    assert_eq!(list.count_backward(), 6);
}

#[test]
fn iterator_takes_from_either_end_until_nothing_is_left() {
    let mut list = DoubleLink::new();
    list.push_tail(1).push_tail(2).push_tail(3).push_tail(4);
    let mut iter = list.into_iter();
    assert_eq!(iter.next_back(), Some(4));
    assert_eq!(iter.next(), Some(1));
    assert_eq!(iter.next_back(), Some(3));
    assert_eq!(iter.next_back(), Some(2));
    assert_eq!(iter.next(), None);
    assert_eq!(iter.next_back(), None);
}

#[test]
fn is_linked_tells_live_handles_from_spent_ones() {
    let mut list = DoubleLink::new();
    assert!(!list.is_linked(0));
    list.push_tail(1).push_tail(2);
    let first = list.head_handle().unwrap();
    let second = list.tail_handle().unwrap();
    assert!(list.is_linked(first));
    assert!(list.is_linked(second));
    assert!(!list.is_linked(first.max(second) + 1));
    assert_eq!(list.unlink(first), 1);
    assert!(!list.is_linked(first));
    assert!(list.is_linked(second));
    list.promote(second);
    assert!(list.is_linked(second));
}
