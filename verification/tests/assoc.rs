use unseemly::name::n;
use unseemly::util::assoc::Assoc;

#[test]
fn set_leaves_the_old_list_as_it_was() {
    let empty: Assoc<i32> = Assoc::new();
    let one = empty.set(n("a"), 1);
    let two = one.set(n("b"), 2);
    let again = two.set(n("a"), 3);
    assert!(empty.empty());
    assert_eq!(one.len(), 1);
    assert_eq!(two.len(), 2);
    assert_eq!(again.len(), 2);
    assert_eq!(one.find(&n("a")), Some(&1));
    assert_eq!(two.find(&n("a")), Some(&1));
    assert_eq!(again.find(&n("a")), Some(&3));
    assert_eq!(again.find(&n("b")), Some(&2));
    assert_eq!(again.find(&n("c")), None);
    assert!(again.key_at(0) == n("a"));
    assert_eq!(again.value_at(1), &2);
}

#[test]
fn set_assoc_lets_the_right_list_win() {
    let lhs = Assoc::new().set(n("a"), 1).set(n("b"), 2);
    let rhs = Assoc::new().set(n("b"), 20).set(n("c"), 30);
    let both = lhs.set_assoc(&rhs);
    assert_eq!(both.len(), 3);
    assert_eq!(both.find(&n("a")), Some(&1));
    assert_eq!(both.find(&n("b")), Some(&20));
    assert_eq!(both.find(&n("c")), Some(&30));
    let copy = both.duplicate();
    assert_eq!(copy.find(&n("b")), Some(&20));
}
