use dibrova::persistentlist::List;

#[test]
fn test_basics() {
    let list = List::new().append(0).append(1);
    assert_eq!(list.head(), Some(&1));
    assert_eq!(list.tail().head(), Some(&0));
    assert_eq!(list.tail().tail().head(), None);
}

#[test]
fn persistentlist_test_iter() {
    let list = List::new().append(1).append(0);
    let mut iter = list.iter();
    assert_eq!(iter.next(), Some(&0));
    assert_eq!(iter.next(), Some(&1));
    assert_eq!(iter.next(), None);
}
