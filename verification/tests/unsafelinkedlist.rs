use dibrova::unsafelinkedlist::List;

#[test]
fn test_create() {
    let mut list = List::<u32>::new();
    assert!(list.iter().next().is_none());
    assert_eq!(list.pop_front(), None);
}

#[test]
fn test_push_pop() {
    let mut list = List::<u32>::new();
    assert_eq!(list.pop_front(), None);
    list.push_back(0);
    assert_eq!(list.pop_front(), Some(0));
    assert_eq!(list.pop_front(), None);
    list.push_back(0);
    list.push_back(1);
    assert_eq!(list.pop_front(), Some(0));
    assert_eq!(list.pop_front(), Some(1));
    assert_eq!(list.pop_front(), None);
}

#[test]
fn unsafelinkedlist_test_iter() {
    let mut list = List::<u32>::new();
    list.push_back(0);
    list.push_back(1);
    list.push_back(2);
    let mut iter = list.iter();
    assert_eq!(iter.next(), Some(&0));
    assert_eq!(iter.next(), Some(&1));
    assert_eq!(iter.next(), Some(&2));
    assert_eq!(iter.next(), None);
    assert_eq!(iter.next(), None);
}

#[test]
fn unsafelinkedlist_test_into_iter() {
    let mut list = List::<u32>::new();
    list.push_back(0);
    list.push_back(1);
    list.push_back(2);
    let mut iter = list.into_iter();
    assert_eq!(iter.next(), Some(0));
    assert_eq!(iter.next(), Some(1));
    assert_eq!(iter.next(), Some(2));
    assert_eq!(iter.next(), None);
    assert_eq!(iter.next(), None);
}
