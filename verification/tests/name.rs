use unseemly::name::{n, negative_ret_val, ContainedName};

#[test]
fn a_name_is_spelled_as_it_was_made() {
    assert_eq!(n("eight").sp(), "eight");
    assert_eq!(n("").sp(), "");
    assert_eq!(negative_ret_val().sp(), "⋄");
}

#[test]
fn names_of_one_spelling_are_the_same() {
    assert!(n("eight") == n("eight"));
    assert!(n("eight") != n("nine"));
    assert!(n("eight").same(n("eight")));
    assert!(!n("eight").same(n("nine")));
    assert!(n("eight").is_name(n("eight")));
    assert!(!n("eight").is_name(n("nine")));
    assert!(n("eight").is("eight"));
    assert!(!n("eight").is("eigh"));
}

#[test]
fn a_contained_name_keeps_the_spelling() {
    assert_eq!(ContainedName::from_name(n("eight")), ContainedName::from_name(n("eight")));
    assert_ne!(ContainedName::from_name(n("eight")), ContainedName::from_name(n("nine")));
}
