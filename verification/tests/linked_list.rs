use rpn_actors::llist::MyType;
use rpn_actors::shopping::ShoppingList;

#[test]
fn empty_list_basics() {
    let empty: MyType<i32> = MyType::empty();
    assert_eq!(empty.len(), 0);
    assert!(empty.head().is_none());
    assert!(empty.get(0).is_none());
    let (item, rest) = empty.pop();
    assert!(item.is_none());
    assert_eq!(rest.len(), 0);
}

#[test]
fn push_pop_and_len() {
    let list: MyType<i32> = MyType::empty().push(1);
    assert_eq!(list.len(), 1);
    let (item, popped) = list.pop();
    assert_eq!(item, Some(1));
    assert_eq!(popped.len(), 0);

    let pushed = popped.push(1).push(2).push(3).push(4);
    assert_eq!(pushed.len(), 4);
    assert_eq!(pushed.head(), Some(&4));
}

#[test]
fn get_walks_from_the_front() {
    let list: MyType<i32> = MyType::empty().push(1).push(2).push(3);
    assert_eq!(list.get(0), Some(&3));
    assert_eq!(list.get(1), Some(&2));
    assert_eq!(list.get(2), Some(&1));
    assert!(list.get(3).is_none());
}

#[test]
fn same_items_compares_lists() {
    let mut a = ShoppingList::new();
    let mut b = ShoppingList::new();
    a.insert("apple".to_string(), 1);
    b.insert("apple".to_string(), 1);
    assert!(a.same_items(&b));
    b.insert("pear".to_string(), 2);
    assert!(!a.same_items(&b));
}
