use rpn_actors::shopping::ShoppingList;

fn names_and_amounts(list: &ShoppingList) -> Vec<(String, u64)> {
    let mut v = Vec::new();
    let mut i = 0;
    while i < list.len() {
        v.push(list.entry(i));
        i += 1;
    }
    v
}

#[test]
fn insert_and_get() {
    let mut list = ShoppingList::new();
    list.insert("tomato".to_string(), 10);
    list.insert("potato".to_string(), 20);
    assert_eq!(list.get(&"tomato".to_string()), Some(10));
    assert_eq!(list.get(&"potato".to_string()), Some(20));
    assert_eq!(list.get(&"blueberry".to_string()), None);
}

#[test]
fn update_replaces_or_appends() {
    let mut list = ShoppingList::new();
    list.insert("tomato".to_string(), 10);
    list.update("tomato".to_string(), 3);
    assert_eq!(list.get(&"tomato".to_string()), Some(3));
    assert_eq!(list.len(), 1);
    list.update("potato".to_string(), 20);
    assert_eq!(list.get(&"potato".to_string()), Some(20));
    assert_eq!(list.len(), 2);
}

#[test]
fn update_touches_first_entry_of_name() {
    let mut list = ShoppingList::new();
    list.insert("apple".to_string(), 1);
    list.insert("apple".to_string(), 2);
    list.update("apple".to_string(), 9);
    let entries = names_and_amounts(&list);
    assert_eq!(entries, vec![("apple".to_string(), 9), ("apple".to_string(), 2)]);
}

#[test]
fn remove_drops_first_match_only() {
    let mut list = ShoppingList::new();
    list.insert("apple".to_string(), 1);
    list.insert("pear".to_string(), 2);
    list.insert("apple".to_string(), 3);
    list.remove(&"apple".to_string());
    let entries = names_and_amounts(&list);
    assert_eq!(entries, vec![("pear".to_string(), 2), ("apple".to_string(), 3)]);
    list.remove(&"plum".to_string());
    assert_eq!(list.len(), 2);
}

#[test]
fn sort_orders_by_name() {
    let mut list = ShoppingList::new();
    list.insert("pear".to_string(), 2);
    list.insert("apple".to_string(), 1);
    list.insert("banana".to_string(), 7);
    list.sort();
    let entries = names_and_amounts(&list);
    assert_eq!(
        entries,
        vec![
            ("apple".to_string(), 1),
            ("banana".to_string(), 7),
            ("pear".to_string(), 2)
        ]
    );
}

#[test]
fn dedup_merges_amounts_of_equal_names() {
    let mut list = ShoppingList::new();
    list.insert("tomato".to_string(), 10);
    list.insert("potato".to_string(), 20);
    list.insert("tomato".to_string(), 5);
    list.insert("potato".to_string(), 1);
    list.insert("tomato".to_string(), 2);
    list.dedup();
    let entries = names_and_amounts(&list);
    assert_eq!(
        entries,
        vec![("potato".to_string(), 21), ("tomato".to_string(), 17)]
    );
}

#[test]
fn save_on_drop_flag_is_sticky() {
    let mut list = ShoppingList::new();
    list.insert("tomato".to_string(), 10);
    list.save_on_drop();
    assert_eq!(list.get(&"tomato".to_string()), Some(10));
}

#[test]
fn amounts_render_and_read_back() {
    let cases: Vec<u64> = vec![0, 7, 10, 42, 305, 18446744073709551615];
    for v in cases {
        let chars = rpn_actors::shopping::amount_chars(v);
        let text: String = chars.into_iter().collect();
        assert_eq!(rpn_actors::shopping::parse_amount(&text), Some(v));
    }
    assert_eq!(rpn_actors::shopping::parse_amount("+42"), Some(42));
    assert_eq!(rpn_actors::shopping::parse_amount(""), None);
    assert_eq!(rpn_actors::shopping::parse_amount("+"), None);
    assert_eq!(rpn_actors::shopping::parse_amount("-1"), None);
    assert_eq!(rpn_actors::shopping::parse_amount("4x"), None);
    assert_eq!(rpn_actors::shopping::parse_amount("18446744073709551616"), None);
}

#[test]
fn entry_lines_render_saved_form() {
    let mut list = ShoppingList::new();
    list.insert("tomato".to_string(), 10);
    let line: String = list.entry_line(0).into_iter().collect();
    assert_eq!(line, "tomato:10\n");
}
