use linked_lists::structure::error::ListError;
use linked_lists::structure::linklist::LinkedList;

fn singly_of(values: &[i32]) -> LinkedList<i32> {
    let mut list = LinkedList::new();
    for v in values {
        list.insert_at_tail(*v);
    }
    list
}

#[test]
fn singly_new_is_empty() {
    let list: LinkedList<i32> = LinkedList::new();
    assert_eq!(list.len(), 0);
    assert_eq!(list.render(), "");
}

#[test]
fn singly_single_element_renders_without_separator() {
    let mut list = LinkedList::new();
    list.insert_at_head(42);
    assert_eq!(list.len(), 1);
    assert_eq!(list.render(), "42");
}

#[test]
fn singly_tail_tail_head_then_two_head_deletions() {
    let mut list = LinkedList::new();
    list.insert_at_tail(1);
    list.insert_at_tail(2);
    list.insert_at_head(0);
    assert_eq!(list.render(), "0 -> 1 -> 2");
    assert_eq!(list.len(), 3);
    assert_eq!(list.delete_head(), Ok(()));
    assert_eq!(list.delete_head(), Ok(()));
    assert_eq!(list.render(), "2");
    assert_eq!(list.len(), 1);
}

#[test]
fn singly_insert_beyond_end_is_refused() {
    let mut list = singly_of(&[1, 2]);
    assert_eq!(list.insert_at_ith(9, 4), Err(ListError::OutOfRange));
    assert_eq!(list.len(), 2);
    assert_eq!(list.render(), "1 -> 2");
    assert_eq!(list.insert_at_ith(9, 3), Err(ListError::OutOfRange));
    assert_eq!(list.render(), "1 -> 2");
}

#[test]
fn singly_insert_on_empty_list_only_at_zero() {
    let mut list: LinkedList<i32> = LinkedList::new();
    assert_eq!(list.insert_at_ith(1, 1), Err(ListError::OutOfRange));
    assert_eq!(list.len(), 0);
    assert_eq!(list.insert_at_ith(1, 0), Ok(()));
    assert_eq!(list.render(), "1");
    assert_eq!(list.len(), 1);
}

#[test]
fn singly_insert_at_zero_is_insert_at_head() {
    let mut by_index = singly_of(&[1, 2, 3]);
    let mut by_head = singly_of(&[1, 2, 3]);
    assert_eq!(by_index.insert_at_ith(0, 0), Ok(()));
    by_head.insert_at_head(0);
    assert_eq!(by_index.render(), "0 -> 1 -> 2 -> 3");
    assert_eq!(by_index.render(), by_head.render());
    assert_eq!(by_index.len(), by_head.len());
}

#[test]
fn singly_insert_at_length_is_insert_at_tail() {
    let mut by_index = singly_of(&[1, 2, 3]);
    let mut by_tail = singly_of(&[1, 2, 3]);
    assert_eq!(by_index.insert_at_ith(4, 3), Ok(()));
    by_tail.insert_at_tail(4);
    assert_eq!(by_index.render(), "1 -> 2 -> 3 -> 4");
    assert_eq!(by_index.render(), by_tail.render());
    assert_eq!(by_index.len(), by_tail.len());
}

#[test]
fn singly_insert_in_the_middle() {
    let mut list = singly_of(&[10, 20, 30, 40]);
    assert_eq!(list.insert_at_ith(15, 1), Ok(()));
    assert_eq!(list.render(), "10 -> 15 -> 20 -> 30 -> 40");
    assert_eq!(list.insert_at_ith(35, 4), Ok(()));
    assert_eq!(list.render(), "10 -> 15 -> 20 -> 30 -> 35 -> 40");
    assert_eq!(list.len(), 6);
    list.insert_at_tail(50);
    assert_eq!(list.render(), "10 -> 15 -> 20 -> 30 -> 35 -> 40 -> 50");
}

#[test]
fn singly_delete_on_empty_list_is_refused() {
    let mut list: LinkedList<i32> = LinkedList::new();
    assert_eq!(list.delete_head(), Err(ListError::EmptyList));
    assert_eq!(list.delete_tail(), Err(ListError::EmptyList));
    assert_eq!(list.len(), 0);
    assert_eq!(list.render(), "");
}

#[test]
fn singly_delete_tail_walks_to_the_end() {
    let mut list = singly_of(&[1, 2, 3, 4]);
    assert_eq!(list.delete_tail(), Ok(()));
    assert_eq!(list.render(), "1 -> 2 -> 3");
    assert_eq!(list.len(), 3);
    assert_eq!(list.delete_tail(), Ok(()));
    assert_eq!(list.render(), "1 -> 2");
    list.insert_at_tail(9);
    assert_eq!(list.render(), "1 -> 2 -> 9");
    assert_eq!(list.delete_tail(), Ok(()));
    assert_eq!(list.delete_tail(), Ok(()));
    assert_eq!(list.render(), "1");
    assert_eq!(list.delete_tail(), Ok(()));
    assert_eq!(list.render(), "");
    assert_eq!(list.len(), 0);
    assert_eq!(list.delete_tail(), Err(ListError::EmptyList));
}

#[test]
fn singly_delete_last_element_clears_both_ends() {
    let mut list = singly_of(&[7]);
    assert_eq!(list.delete_head(), Ok(()));
    assert_eq!(list.len(), 0);
    list.insert_at_tail(8);
    assert_eq!(list.render(), "8");
    list.insert_at_head(6);
    assert_eq!(list.render(), "6 -> 8");
}

#[test]
fn singly_insert_then_delete_at_same_end_restores() {
    let mut list = singly_of(&[1, 2, 3]);
    list.insert_at_head(0);
    assert_eq!(list.delete_head(), Ok(()));
    assert_eq!(list.render(), "1 -> 2 -> 3");
    assert_eq!(list.len(), 3);
    list.insert_at_tail(4);
    assert_eq!(list.delete_tail(), Ok(()));
    assert_eq!(list.render(), "1 -> 2 -> 3");
    assert_eq!(list.len(), 3);
}

#[test]
fn singly_length_follows_every_operation() {
    let mut list: LinkedList<u64> = LinkedList::new();
    for round in 0..20u64 {
        list.insert_at_tail(round);
        list.insert_at_head(round + 100);
        assert_eq!(list.insert_at_ith(round + 200, 1), Ok(()));
        assert_eq!(list.delete_tail(), Ok(()));
        let n = list.len();
        assert_eq!(n as u64, 2 * (round + 1));
        let shown = list.render();
        assert_eq!(shown.split(" -> ").count(), n);
    }
    while list.len() > 0 {
        let before = list.len();
        assert_eq!(list.delete_head(), Ok(()));
        assert_eq!(list.len(), before - 1);
    }
    assert_eq!(list.render(), "");
}

#[test]
fn singly_holds_owned_strings() {
    let mut list: LinkedList<String> = LinkedList::new();
    list.insert_at_tail(String::from("b"));
    list.insert_at_head(String::from("a"));
    assert_eq!(list.insert_at_ith(String::from("c"), 2), Ok(()));
    assert_eq!(list.render(), "a -> b -> c");
    assert_eq!(list.delete_head(), Ok(()));
    assert_eq!(list.render(), "b -> c");
}
