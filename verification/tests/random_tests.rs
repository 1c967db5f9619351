use brlang::random::rand_choice;

#[test]
fn choice_of_one_is_that_one() {
    assert_eq!(rand_choice(&vec![5]), Ok(&5));
}

#[test]
fn choice_of_none_is_refused() {
    let empty: Vec<i64> = vec![];
    assert_eq!(rand_choice(&empty), Err("Empty coll"));
}

#[test]
fn choice_is_one_of_the_items() {
    let items = vec![10, 20, 30, 40];
    for _ in 0..50 {
        let x = rand_choice(&items).unwrap();
        assert!(items.contains(x));
    }
}
