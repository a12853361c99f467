use dibrova::linkedlist::List;

#[test]
fn test_linked_list_simple() {
    let mut list = List::new();
    assert!(list.pop() == None);
    list.push(0);
    list.push(1);
    assert!(list.pop() == Some(1));
    assert!(list.pop() == Some(0));
    assert!(list.pop() == None);

    let mut list = List::new();
    list.push("hello".to_string());
    list.push("world".to_string());
    assert!(list.pop() == Some(String::from("world")));
    assert!(list.pop() == Some(String::from("hello")));

    let a = Box::new("hello");
    let b = Box::new("world");
    let mut list = List::new();
    list.push(&a);
    list.push(&b);
    assert!(list.pop() == Some(&b));
    assert!(list.pop() == Some(&a));
}

#[test]
fn test_linked_list_peek() {
    let mut list = List::new();
    list.push("hello");
    assert!(list.peek() == Some(&"hello"));
    list.push("world");
    assert!(list.peek() == Some(&"world"));
    list.pop();
    assert!(list.peek() == Some(&"hello"));
}

#[test]
fn linkedlist_test_into_iter() {
    let mut list = List::new();
    list.push(String::from("1"));
    list.push(String::from("0"));
    let mut iter = list.into_iter();
    assert_eq!(iter.next(), Some(String::from("0")));
    assert_eq!(iter.next(), Some(String::from("1")));
    assert_eq!(iter.next(), None);
}

#[test]
fn linkedlist_test_iter() {
    let mut list = List::new();
    let one = 1;
    let zero = 0;
    list.push(one);
    list.push(zero);
    let mut iter = list.iter();
    assert_eq!(iter.next(), Some(&0));
    assert_eq!(iter.next(), Some(&1));
}
