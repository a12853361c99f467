use dibrova::doublylinkedlist::List;

#[test]
fn test_basic_push_and_pop() {
    let mut l = List::new();
    assert_eq!(l.pop_back(), None);
    assert_eq!(l.pop_front(), None);
    l.push_back(8);
    assert_eq!(l.pop_back(), Some(8));
    assert_eq!(l.pop_back(), None);
    assert_eq!(l.pop_front(), None);
    l.push_front(7);
    assert_eq!(l.pop_back(), Some(7));
    assert_eq!(l.pop_back(), None);
    assert_eq!(l.pop_front(), None);
    l.push_back(1);
    l.push_back(2);
    l.push_back(3);
    assert_eq!(l.pop_front(), Some(1));
    assert_eq!(l.pop_front(), Some(2));
    l.push_front(4);
    l.push_front(5);
    assert_eq!(l.pop_back(), Some(3));
    assert_eq!(l.pop_back(), Some(4));
    assert_eq!(l.pop_back(), Some(5));
    assert_eq!(l.pop_back(), None)
}

#[test]
fn test_peek() {
    let mut l = List::new();
    assert!(l.peek_front().is_none());
    assert!(l.peek_back().is_none());
    l.push_back(8);
    l.push_back(7);
    assert_eq!(l.peek_front().unwrap(), &8);
    assert_eq!(l.peek_back().unwrap(), &7);
}

#[test]
fn doublylinkedlist_test_into_iter() {
    let mut l = List::new();
    l.push_back(0);
    l.push_back(1);
    l.push_back(2);
    l.push_back(3);
    let mut iter = l.into_iter();
    assert_eq!(iter.next(), Some(0));
    assert_eq!(iter.next_back(), Some(3));
    assert_eq!(iter.next(), Some(1));
    assert_eq!(iter.next_back(), Some(2));
    assert_eq!(iter.next(), None);
    assert_eq!(iter.next_back(), None);
}
