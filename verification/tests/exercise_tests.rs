use website_monitor::exercises::{
    check_guess, clone_and_modify, concat_strings, is_even, most_frequent_by_key,
    most_frequent_word, sum, sum_recursive, sum_with_step,
};

#[test]
fn parity() {
    assert!(is_even(0));
    assert!(is_even(4));
    assert!(!is_even(7));
    assert!(is_even(-2));
    assert!(!is_even(-3));
}

#[test]
fn guesses() {
    assert_eq!(check_guess(77, 77), 0);
    assert_eq!(check_guess(80, 77), 1);
    assert_eq!(check_guess(5, 77), -1);
    assert_eq!(check_guess(5, 7), -check_guess(7, 5));
}

#[test]
fn string_building() {
    let r = concat_strings(&String::from("Hello, "), &String::from("World!"));
    assert_eq!(r, "Hello, World!");
    assert_eq!(concat_strings(&String::new(), &String::new()), "");
    let s = String::from("Hello, ");
    assert_eq!(clone_and_modify(&s), "Hello, World!");
    assert_eq!(s, "Hello, ");
    assert_eq!(clone_and_modify(&String::from("Hi ")), "Hi World!");
    assert_eq!(clone_and_modify(&String::new()), "World!");
}

#[test]
fn stepped_sums() {
    let mut result = 0;
    sum_with_step(&mut result, 1, 10, 1);
    assert_eq!(result, 55);
    sum_with_step(&mut result, 2, 20, 2);
    assert_eq!(result, 110);
    sum_with_step(&mut result, 5, 15, 3);
    assert_eq!(result, 5 + 8 + 11 + 14);
    sum_with_step(&mut result, 5, 15, 0);
    assert_eq!(result, 0);
    result = 9;
    sum_with_step(&mut result, 10, 1, 1);
    assert_eq!(result, 0);
    sum_with_step(&mut result, -3, 3, 2);
    assert_eq!(result, -3 + -1 + 1 + 3);
}

#[test]
fn range_sums() {
    let mut total = 0;
    sum(&mut total, 0, 100);
    assert_eq!(total, 5050);
    total = 17;
    sum(&mut total, 1, 4);
    assert_eq!(total, 10);
    sum(&mut total, 3, 2);
    assert_eq!(total, 0);
    let mut total = 0;
    sum_recursive(&mut total, 0, 100);
    assert_eq!(total, 5050);
    let mut total = 5;
    sum_recursive(&mut total, 1, 3);
    assert_eq!(total, 11);
    sum_recursive(&mut total, 4, 3);
    assert_eq!(total, 11);
    let mut big = 0;
    sum(&mut big, i32::MAX, i32::MAX);
    assert_eq!(big, i32::MAX);
    let mut low = 0;
    sum(&mut low, i32::MIN, i32::MIN);
    assert_eq!(low, i32::MIN);
}

#[test]
fn most_frequent() {
    let text = "the quick brown fox jumps over the lazy dog the quick brown fox";
    assert_eq!(most_frequent_word(text), ("the".to_string(), 3));
    assert_eq!(most_frequent_word(""), (String::new(), 0));
    assert_eq!(most_frequent_word("   \t\n "), (String::new(), 0));
    // Case is ignored when counting; the first spelling is kept.
    assert_eq!(most_frequent_word("The a THE b the"), ("The".to_string(), 3));
    // Ties go to the word seen first.
    assert_eq!(most_frequent_word("b a a b c"), ("b".to_string(), 2));
    assert_eq!(most_frequent_word("ÄRGER ärger x"), ("ÄRGER".to_string(), 2));
}

#[test]
fn most_frequent_with_given_keys() {
    let words: Vec<String> = vec!["x".into(), "y".into(), "z".into()];
    let keys: Vec<String> = vec!["k".into(), "m".into(), "m".into()];
    assert_eq!(most_frequent_by_key(&words, &keys), ("y".to_string(), 2));
    assert_eq!(most_frequent_by_key(&vec![], &vec![]), (String::new(), 0));
}
