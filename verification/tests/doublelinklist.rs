use linked_lists::structure::doublelinklist::LinkedList;
use linked_lists::structure::error::ListError;

fn doubly_of(values: &[i32]) -> LinkedList<i32> {
    let mut list = LinkedList::new();
    for v in values {
        list.insert_at_tail(*v);
    }
    list
}

#[test]
fn doubly_new_is_empty() {
    let mut list: LinkedList<i32> = LinkedList::new();
    assert_eq!(list.len(), 0);
    assert_eq!(list.render(), "");
    assert_eq!(list.delete_head(), None);
    assert_eq!(list.len(), 0);
}

#[test]
fn doubly_single_element_renders_without_separator() {
    let mut list = LinkedList::new();
    list.insert_at_tail(42);
    assert_eq!(list.len(), 1);
    assert_eq!(list.render(), "42");
}

#[test]
fn doubly_head_tail_then_insert_between() {
    let mut list = LinkedList::new();
    list.insert_at_head(5);
    list.insert_at_tail(10);
    assert_eq!(list.insert_at_ith(7, 1), Ok(()));
    assert_eq!(list.render(), "5 -> 7 -> 10");
    assert_eq!(list.len(), 3);
}

#[test]
fn doubly_insert_beyond_end_is_refused() {
    let mut list = doubly_of(&[1, 2]);
    assert_eq!(list.insert_at_ith(9, 4), Err(ListError::OutOfRange));
    assert_eq!(list.len(), 2);
    assert_eq!(list.render(), "1 -> 2");
    assert_eq!(list.delete_head(), Some(1));
    assert_eq!(list.delete_head(), Some(2));
    assert_eq!(list.delete_head(), None);
}

#[test]
fn doubly_insert_at_zero_is_insert_at_head() {
    let mut by_index = doubly_of(&[1, 2, 3]);
    let mut by_head = doubly_of(&[1, 2, 3]);
    assert_eq!(by_index.insert_at_ith(0, 0), Ok(()));
    by_head.insert_at_head(0);
    assert_eq!(by_index.render(), "0 -> 1 -> 2 -> 3");
    assert_eq!(by_index.render(), by_head.render());
    assert_eq!(by_index.len(), by_head.len());
}

#[test]
fn doubly_insert_at_length_is_insert_at_tail() {
    let mut by_index = doubly_of(&[1, 2, 3]);
    let mut by_tail = doubly_of(&[1, 2, 3]);
    assert_eq!(by_index.insert_at_ith(4, 3), Ok(()));
    by_tail.insert_at_tail(4);
    assert_eq!(by_index.render(), "1 -> 2 -> 3 -> 4");
    assert_eq!(by_index.render(), by_tail.render());
    assert_eq!(by_index.len(), by_tail.len());
}

#[test]
fn doubly_insert_at_every_inner_position() {
    let mut list = doubly_of(&[10, 20, 30]);
    assert_eq!(list.insert_at_ith(15, 1), Ok(()));
    assert_eq!(list.render(), "10 -> 15 -> 20 -> 30");
    assert_eq!(list.insert_at_ith(25, 3), Ok(()));
    assert_eq!(list.render(), "10 -> 15 -> 20 -> 25 -> 30");
    assert_eq!(list.len(), 5);
    list.insert_at_head(5);
    list.insert_at_tail(35);
    assert_eq!(list.render(), "5 -> 10 -> 15 -> 20 -> 25 -> 30 -> 35");
}

#[test]
fn doubly_delete_head_hands_out_values_in_order() {
    let mut list = doubly_of(&[1, 2, 3]);
    assert_eq!(list.delete_head(), Some(1));
    assert_eq!(list.len(), 2);
    assert_eq!(list.render(), "2 -> 3");
    assert_eq!(list.delete_head(), Some(2));
    assert_eq!(list.delete_head(), Some(3));
    assert_eq!(list.len(), 0);
    assert_eq!(list.render(), "");
    assert_eq!(list.delete_head(), None);
    list.insert_at_tail(4);
    list.insert_at_head(0);
    assert_eq!(list.render(), "0 -> 4");
}

#[test]
fn doubly_insert_then_delete_at_head_restores() {
    let mut list = doubly_of(&[1, 2, 3]);
    list.insert_at_head(0);
    assert_eq!(list.delete_head(), Some(0));
    assert_eq!(list.render(), "1 -> 2 -> 3");
    assert_eq!(list.len(), 3);
}

#[test]
fn doubly_length_follows_every_operation() {
    let mut list: LinkedList<u64> = LinkedList::new();
    for round in 0..20u64 {
        list.insert_at_tail(round);
        list.insert_at_head(round + 100);
        assert_eq!(list.insert_at_ith(round + 200, 1), Ok(()));
        assert_eq!(list.delete_head(), Some(round + 100));
        let n = list.len();
        assert_eq!(n as u64, 2 * (round + 1));
        assert_eq!(list.render().split(" -> ").count(), n);
    }
    let mut left = list.len();
    while let Some(_) = list.delete_head() {
        left -= 1;
        assert_eq!(list.len(), left);
    }
    assert_eq!(left, 0);
}

#[test]
fn doubly_holds_owned_strings() {
    let mut list: LinkedList<String> = LinkedList::new();
    list.insert_at_tail(String::from("b"));
    list.insert_at_head(String::from("a"));
    assert_eq!(list.insert_at_ith(String::from("c"), 2), Ok(()));
    assert_eq!(list.render(), "a -> b -> c");
    assert_eq!(list.delete_head(), Some(String::from("a")));
    assert_eq!(list.render(), "b -> c");
}
