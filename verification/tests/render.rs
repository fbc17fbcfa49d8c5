use linked_lists::structure::render::join_texts;

#[test]
fn join_of_nothing_is_empty() {
    let parts: Vec<String> = Vec::new();
    assert_eq!(join_texts(&parts), "");
}

#[test]
fn join_of_one_part_is_that_part() {
    let parts = vec![String::from("only")];
    assert_eq!(join_texts(&parts), "only");
}

#[test]
fn join_puts_an_arrow_between_neighbours() {
    let parts = vec![String::from("a"), String::from(""), String::from("c d")];
    assert_eq!(join_texts(&parts), "a ->  -> c d");
}
