use algokit::linked_list::LinkedList;

#[test]
fn test() {
    let mut list = LinkedList::new();

    list.push(1);
    list.push(2);

    println!("{:?}", list.pop());
    println!("{:?}", list.pop());
    println!("{:?}", list.pop());
}

#[test]
fn pop_returns_last_pushed() {
    let mut list = LinkedList::new();
    list.push(1);
    list.push(2);
    list.push(3);
    assert_eq!(list.size, 3);
    assert_eq!(list.pop(), Some(3));
    assert_eq!(list.pop(), Some(2));
    assert_eq!(list.pop(), Some(1));
    assert_eq!(list.pop(), None);
    assert_eq!(list.size, 0);
}

#[test]
fn push_after_pop() {
    let mut list = LinkedList::new();
    list.push(String::from("first"));
    assert_eq!(list.pop(), Some(String::from("first")));
    list.push(String::from("second"));
    assert_eq!(list.size, 1);
    assert_eq!(list.pop(), Some(String::from("second")));
}
