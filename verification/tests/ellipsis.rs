use unseemly::util::mbe::DddIter;

#[test]
fn ddd_iter() {
    assert_eq!(DddIter::new(&[0, 1, 2], 0, 0).collect(), [&1, &2]);
    assert_eq!(DddIter::new(&[0, 1, 2], 1, 0).collect(), [&0, &2]);
    assert_eq!(DddIter::new(&[0, 1, 2], 2, 0).collect(), [&0, &1]);

    assert_eq!(DddIter::new(&[0, 1, 2], 1, 1).collect(), [&0, &1, &2]);
    assert_eq!(DddIter::new(&[0, 1, 2], 1, 3).collect(), [&0, &1, &1, &1, &2]);
}

#[test]
fn a_marker_past_the_end_changes_nothing() {
    assert_eq!(DddIter::new(&[0, 1, 2], 3, 0).collect(), [&0, &1, &2]);
    assert_eq!(DddIter::new(&[0, 1, 2], 7, 5).collect(), [&0, &1, &2]);
    assert_eq!(DddIter::<i32>::new(&[], 0, 4).collect(), Vec::<&i32>::new());
}

#[test]
fn next_hands_out_one_element_at_a_time() {
    let items = [10, 20];
    let mut walk = DddIter::new(&items, 0, 2);
    assert_eq!(walk.next(), Some(&10));
    assert_eq!(walk.next(), Some(&10));
    assert_eq!(walk.next(), Some(&20));
    assert_eq!(walk.next(), None);
    assert_eq!(walk.next(), None);
}
