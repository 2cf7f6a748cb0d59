use unseemly::name::{n, Name};
use unseemly::util::assoc::Assoc;
use unseemly::util::mbe::{EnvMBE, MbeError};

fn leaf_i32(name: &str, v: i32) -> EnvMBE<i32> {
    EnvMBE::new_from_leaves(Assoc::new().set(n(name), v))
}

fn atom(name: &str, spelling: &str) -> EnvMBE<Name> {
    EnvMBE::new_from_leaves(Assoc::new().set(n(name), n(spelling)))
}

fn atoms(name: &str, spellings: &[&str]) -> Vec<EnvMBE<Name>> {
    spellings.iter().map(|s| atom(name, s)).collect()
}

fn concat(l: &Name, r: &Name) -> Name {
    n(format!("{}{}", l.sp(), r.sp()).as_str())
}

#[test]
fn basic_mbe() {
    let mut mbe = EnvMBE::new();
    mbe.add_leaf(n("eight"), 8 as i32);
    mbe.add_leaf(n("nine"), 9);

    assert!(!mbe.eq(&EnvMBE::new()));
    assert!(!EnvMBE::new().eq(&mbe));

    let teens_mbe = vec![leaf_i32("t", 11), leaf_i32("t", 12), leaf_i32("t", 13)];

    mbe.add_named_repeat(n("low_two_digits"), teens_mbe, None).unwrap();

    let big_mbe = vec![leaf_i32("y", 9001), leaf_i32("y", 9002)];

    mbe.add_anon_repeat(big_mbe, None);

    for (sub_mbe, teen) in mbe.march_all(&vec![n("t"), n("eight")]).unwrap().iter().zip(vec![11, 12, 13]) {
        assert_eq!(sub_mbe.get_leaf(&n("eight")), Some(&8));
        assert_eq!(sub_mbe.get_leaf(&n("nine")), Some(&9));
        assert_eq!(sub_mbe.get_leaf(&n("t")), Some(&teen));
        assert_eq!(sub_mbe.get_leaf(&n("y")), None);

        for (sub_sub_mbe, big) in
            sub_mbe.march_all(&vec![n("y"), n("eight")]).unwrap().iter().zip(vec![9001, 9002])
        {
            assert_eq!(sub_sub_mbe.get_leaf(&n("eight")), Some(&8));
            assert_eq!(sub_sub_mbe.get_leaf(&n("nine")), Some(&9));
            assert_eq!(sub_sub_mbe.get_leaf(&n("t")), Some(&teen));
            assert_eq!(sub_sub_mbe.get_leaf(&n("y")), Some(&big));
        }
    }

    let neg_teens_mbe = vec![leaf_i32("nt", -11), leaf_i32("nt", -12), leaf_i32("nt", -13)];

    mbe.add_named_repeat(n("low_two_digits"), neg_teens_mbe, None).unwrap();

    for (sub_mbe, teen) in
        mbe.march_all(&vec![n("t"), n("nt"), n("eight")]).unwrap().iter().zip(vec![11, 12, 13])
    {
        assert_eq!(sub_mbe.get_leaf(&n("eight")), Some(&8));
        assert_eq!(sub_mbe.get_leaf(&n("nine")), Some(&9));
        assert_eq!(sub_mbe.get_leaf(&n("t")), Some(&teen));
        assert_eq!(sub_mbe.get_leaf(&n("nt")), Some(&-teen));

        for (sub_sub_mbe, big) in
            sub_mbe.march_all(&vec![n("y"), n("eight")]).unwrap().iter().zip(vec![9001, 9002])
        {
            assert_eq!(sub_sub_mbe.get_leaf(&n("eight")), Some(&8));
            assert_eq!(sub_sub_mbe.get_leaf(&n("nine")), Some(&9));
            assert_eq!(sub_sub_mbe.get_leaf(&n("t")), Some(&teen));
            assert_eq!(sub_sub_mbe.get_leaf(&n("nt")), Some(&-teen));
            assert_eq!(sub_sub_mbe.get_leaf(&n("y")), Some(&big));
        }
    }

    let all_zeroes = mbe.map_with(&mbe, &|a, b| a - b).unwrap();
    for sub_mbe in all_zeroes.march_all(&vec![n("t"), n("nt"), n("eight")]).unwrap() {
        assert_eq!(sub_mbe.get_leaf(&n("eight")), Some(&0));
        assert_eq!(sub_mbe.get_leaf(&n("nine")), Some(&0));
        assert_eq!(sub_mbe.get_leaf(&n("t")), Some(&0));
        assert_eq!(sub_mbe.get_leaf(&n("nt")), Some(&0));

        for (sub_sub_mbe, _) in
            sub_mbe.march_all(&vec![n("y"), n("eight")]).unwrap().iter().zip(vec![9001, 9002])
        {
            assert_eq!(sub_sub_mbe.get_leaf(&n("eight")), Some(&0));
            assert_eq!(sub_sub_mbe.get_leaf(&n("nine")), Some(&0));
            assert_eq!(sub_sub_mbe.get_leaf(&n("t")), Some(&0));
            assert_eq!(sub_sub_mbe.get_leaf(&n("nt")), Some(&0));
            assert_eq!(sub_sub_mbe.get_leaf(&n("y")), Some(&0));
        }
    }

    assert!(mbe.eq(&mbe));
    assert!(!mbe.eq(&mbe.map(&|x| x - 1)));
    assert!(mbe.eq(&mbe.map(&|x| x - 0)));
    assert!(!mbe.eq(&EnvMBE::new()));
    assert!(!EnvMBE::new().eq(&mbe));

    assert!(mbe.eq(&mbe.map_with(&all_zeroes, &|a, b| a + b).unwrap()));
    assert!(mbe.eq(&all_zeroes.map_with(&mbe, &|a, b| a + b).unwrap()));

    assert_eq!(
        mbe.map_reduce_with(&all_zeroes, &|a, b| if *a < *b { *a } else { *b }, &|a, b| (*a + *b), 0),
        Ok(-11 + -12 + -13)
    );

    assert!(matches!(
        mbe.clone().map(&|x: &i32| if *x == 12 { Err(()) } else { Ok(*x) }).lift_result(),
        Err(())
    ));
    assert!(mbe
        .clone()
        .eq(&mbe.clone().map(&|x: &i32| if *x == 121212 { Err(()) } else { Ok(*x) }).lift_result().unwrap()));

    let mapped_mbe = mbe.map(&|x: &i32| (*x, *x - 9000));

    let first_sub_mbe = &mapped_mbe.march_all(&vec![n("y")]).unwrap()[0];

    assert_eq!(first_sub_mbe.get_leaf(&n("y")), Some(&(9001, 1)));
    assert_eq!(first_sub_mbe.get_leaf(&n("eight")), Some(&(8, (8 - 9000))));
    assert_eq!(first_sub_mbe.get_leaf(&n("x")), None);
}

#[test]
fn mbe_ddd_map_with() {
    let lhs = EnvMBE::new_from_anon_repeat(atoms("a", &["0", "1", "2", "3", "4"]));
    let rhs = EnvMBE::new_from_anon_repeat_ddd(atoms("a", &["0", "1", "4"]), Some(1));

    assert!(lhs
        .map_with(&rhs, &concat)
        .unwrap()
        .eq(&EnvMBE::new_from_anon_repeat(atoms("a", &["00", "11", "21", "31", "44"]))));
    assert!(rhs
        .map_with(&lhs, &concat)
        .unwrap()
        .eq(&EnvMBE::new_from_anon_repeat(atoms("a", &["00", "11", "12", "13", "44"]))));

    assert!(lhs.map_reduce_with(&rhs, &concat, &concat, n("")).unwrap() == n("4431211100"));

    let pair = |x: &str, y: &str| EnvMBE::new_from_anon_repeat(atoms("a", &[x, y]));
    let lhs = EnvMBE::new_from_anon_repeat(vec![pair("a", "b"), pair("c", "d"), pair("c", "d")]);
    let rhs = EnvMBE::new_from_anon_repeat_ddd(vec![pair("a", "b"), pair("c", "d")], Some(1));

    assert!(lhs.map_with(&rhs, &concat).unwrap().eq(&EnvMBE::new_from_anon_repeat(vec![
        pair("aa", "bb"),
        pair("cc", "dd"),
        pair("cc", "dd")
    ])));
}

fn digits() -> EnvMBE<i32> {
    let mut mbe = EnvMBE::new();
    mbe.add_leaf(n("eight"), 8);
    mbe.add_leaf(n("nine"), 9);
    mbe.add_named_repeat(n("digits"), vec![leaf_i32("t", 11), leaf_i32("t", 12), leaf_i32("t", 13)], None)
        .unwrap();
    mbe.add_anon_repeat(vec![leaf_i32("y", 9001), leaf_i32("y", 9002)], None);
    mbe
}

#[test]
fn march_twice_end_to_end() {
    let mbe = digits();
    let outer = mbe.march_all(&[n("t"), n("eight")]).unwrap();
    assert_eq!(outer.len(), 3);
    for (i, sub) in outer.iter().enumerate() {
        assert_eq!(sub.get_leaf(&n("eight")), Some(&8));
        assert_eq!(sub.get_leaf(&n("nine")), Some(&9));
        assert_eq!(sub.get_leaf(&n("t")), Some(&(11 + i as i32)));
        assert_eq!(sub.get_leaf(&n("y")), None);
        let inner = sub.march_all(&[n("y"), n("eight")]).unwrap();
        assert_eq!(inner.len(), 2);
        for (j, sub_sub) in inner.iter().enumerate() {
            assert_eq!(sub_sub.get_leaf(&n("y")), Some(&(9001 + j as i32)));
            assert_eq!(sub_sub.get_leaf(&n("eight")), Some(&8));
            assert_eq!(sub_sub.get_leaf(&n("nine")), Some(&9));
            assert_eq!(sub_sub.get_leaf(&n("t")), Some(&(11 + i as i32)));
        }
    }
}

#[test]
fn map_with_identity_changes_nothing() {
    let mbe = digits();
    assert!(mbe.map(&|x: &i32| *x).eq(&mbe));
}

#[test]
fn self_zip_keeps_the_left() {
    let mbe = digits();
    assert!(mbe.map_with(&mbe, &|a: &i32, _b: &i32| *a).unwrap().eq(&mbe));
}

#[test]
fn self_zip_with_marker_is_ambiguous() {
    let marked = EnvMBE::new_from_anon_repeat_ddd(vec![leaf_i32("a", 1)], Some(0));
    assert!(matches!(
        marked.map_with(&marked, &|a: &i32, _b: &i32| *a),
        Err(MbeError::AmbiguousElision)
    ));
}

#[test]
fn combine_overriding_is_right_biased() {
    let mut lhs = EnvMBE::new();
    lhs.add_leaf(n("a"), 1);
    lhs.add_leaf(n("b"), 2);
    let mut rhs = EnvMBE::new();
    rhs.add_leaf(n("b"), 20);
    rhs.add_leaf(n("c"), 30);
    let both = lhs.combine_overriding(&rhs);
    assert_eq!(both.get_leaf(&n("a")), Some(&1));
    assert_eq!(both.get_leaf(&n("b")), Some(&20));
    assert_eq!(both.get_leaf(&n("c")), Some(&30));
    assert_eq!(both.get_leaf(&n("d")), None);
}

#[test]
fn combine_overriding_shifts_the_groups_of_the_right() {
    let lhs = EnvMBE::new_from_anon_repeat(vec![leaf_i32("x", 1), leaf_i32("x", 2)]);
    let rhs = EnvMBE::new_from_anon_repeat(vec![leaf_i32("y", 7), leaf_i32("y", 8), leaf_i32("y", 9)]);
    let both = lhs.combine_overriding(&rhs);
    assert_eq!(both.get_rep_leaf(&n("x")), Some(vec![&1, &2]));
    assert_eq!(both.get_rep_leaf(&n("y")), Some(vec![&7, &8, &9]));
    assert_eq!(both.march_all(&[n("y")]).unwrap().len(), 3);
}

#[test]
fn add_leaf_last_write_wins() {
    let mut mbe = EnvMBE::new();
    mbe.add_leaf(n("a"), 1);
    mbe.add_leaf(n("a"), 2);
    assert_eq!(mbe.get_leaf(&n("a")), Some(&2));
    assert_eq!(mbe.get_leaf_or_panic(&n("a")), Ok(&2));
}

#[test]
fn named_repeat_again_with_other_length_is_arity_mismatch() {
    let mut mbe = digits();
    let before = mbe.clone();
    assert_eq!(
        mbe.add_named_repeat(n("digits"), vec![leaf_i32("u", 1), leaf_i32("u", 2)], None),
        Err(MbeError::ArityMismatch)
    );
    assert!(mbe.eq(&before));
}

#[test]
fn named_repeat_again_with_other_marker_is_elide_mismatch() {
    let mut mbe = digits();
    assert_eq!(
        mbe.add_named_repeat(
            n("digits"),
            vec![leaf_i32("u", 1), leaf_i32("u", 2), leaf_i32("u", 3)],
            Some(1)
        ),
        Err(MbeError::ElideMismatch)
    );
}

#[test]
fn named_repeat_again_merges_element_by_element() {
    let mut mbe = EnvMBE::new();
    mbe.add_named_repeat(n("g"), vec![leaf_i32("p", 1), leaf_i32("p", 2), leaf_i32("p", 3)], None)
        .unwrap();
    mbe.add_named_repeat(n("g"), vec![leaf_i32("q", 10), leaf_i32("q", 20), leaf_i32("q", 30)], None)
        .unwrap();
    let marched = mbe.march_all(&[n("p"), n("q")]).unwrap();
    assert_eq!(marched.len(), 3);
    for (i, sub) in marched.iter().enumerate() {
        assert_eq!(sub.get_leaf(&n("p")), Some(&(i as i32 + 1)));
        assert_eq!(sub.get_leaf(&n("q")), Some(&((i as i32 + 1) * 10)));
    }
}

#[test]
fn empty_repeat_is_not_added() {
    let mut mbe: EnvMBE<i32> = EnvMBE::new();
    mbe.add_anon_repeat(vec![], None);
    mbe.add_named_repeat(n("g"), vec![], Some(0)).unwrap();
    assert!(mbe.eq(&EnvMBE::new()));
    assert!(EnvMBE::<i32>::new_from_anon_repeat(vec![]).eq(&EnvMBE::new()));
    assert!(EnvMBE::<i32>::new_from_named_repeat(n("g"), vec![]).eq(&EnvMBE::new()));
}

#[test]
fn same_name_in_two_elements_is_accepted() {
    let mut first = EnvMBE::new();
    first.add_leaf(n("a"), 1);
    first.add_leaf(n("b"), 5);
    let second = leaf_i32("a", 2);
    let mbe = EnvMBE::new_from_anon_repeat(vec![first, second]);
    let marched = mbe.march_all(&[n("a")]).unwrap();
    assert_eq!(marched.len(), 2);
    assert_eq!(marched[0].get_leaf(&n("a")), Some(&1));
    assert_eq!(marched[1].get_leaf(&n("a")), Some(&2));
    assert_eq!(marched[0].get_leaf(&n("b")), Some(&5));
    assert_eq!(marched[1].get_leaf(&n("b")), None);
    assert_eq!(mbe.get_rep_leaf(&n("b")), None);
}

#[test]
fn march_by_names_of_two_groups_is_drive_mismatch() {
    let mbe = digits();
    assert!(matches!(mbe.march_all(&[n("t"), n("y")]), Err(MbeError::DriveMismatch)));
}

#[test]
fn march_by_names_that_do_not_repeat_is_not_repeated() {
    let mbe = digits();
    assert!(matches!(mbe.march_all(&[n("eight"), n("nowhere")]), Err(MbeError::NotRepeated)));
    assert!(matches!(mbe.march_all(&[]), Err(MbeError::NotRepeated)));
}

#[test]
fn missing_leaf_is_reported() {
    let mbe = digits();
    assert_eq!(mbe.get_leaf_or_panic(&n("t")), Err(MbeError::MissingLeaf));
    assert_eq!(mbe.get_leaf_or_panic(&n("eight")), Ok(&8));
    assert_eq!(mbe.get_rep_leaf_or_panic(&n("eight")), Err(MbeError::MissingLeaf));
    assert_eq!(mbe.get_rep_leaf_or_panic(&n("t")), Ok(vec![&11, &12, &13]));
    assert_eq!(mbe.get_rep_leaf(&n("y")), Some(vec![&9001, &9002]));
    assert_eq!(mbe.get_rep_leaf(&n("nowhere")), None);
}

#[test]
fn anonimize_repeat_frees_the_name() {
    let mut mbe = digits();
    mbe.anonimize_repeat(n("digits"));
    mbe.add_named_repeat(n("digits"), vec![leaf_i32("u", 1)], None).unwrap();
    assert_eq!(mbe.get_rep_leaf(&n("t")), Some(vec![&11, &12, &13]));
    assert_eq!(mbe.get_rep_leaf(&n("u")), Some(vec![&1]));
}

#[test]
fn equality_passes_over_erased_names() {
    let mut named = EnvMBE::new();
    named.add_named_repeat(n("g"), vec![leaf_i32("p", 1)], None).unwrap();
    named.anonimize_repeat(n("g"));
    let anon = EnvMBE::new_from_anon_repeat(vec![leaf_i32("p", 1)]);
    assert!(named.eq(&anon));
    assert!(anon.eq(&named));
}

#[test]
fn equality_passes_over_the_order_of_leaves() {
    let mut ab = EnvMBE::new();
    ab.add_leaf(n("a"), 1);
    ab.add_leaf(n("b"), 2);
    let mut ba = EnvMBE::new();
    ba.add_leaf(n("b"), 2);
    ba.add_leaf(n("a"), 1);
    assert!(ab.eq(&ba));
    ba.add_leaf(n("c"), 3);
    assert!(!ab.eq(&ba));
    assert!(!ba.eq(&ab));
}

#[test]
fn merge_folds_named_groups_and_appends_the_others() {
    let mut lhs = EnvMBE::new();
    lhs.add_leaf(n("k"), 1);
    lhs.add_named_repeat(n("g"), vec![leaf_i32("p", 1), leaf_i32("p", 2)], None).unwrap();
    let mut rhs = EnvMBE::new();
    rhs.add_leaf(n("k"), 100);
    rhs.add_named_repeat(n("g"), vec![leaf_i32("q", 10), leaf_i32("q", 20)], None).unwrap();
    rhs.add_anon_repeat(vec![leaf_i32("r", 7)], None);
    let merged = lhs.merge(&rhs).unwrap();
    assert_eq!(merged.get_leaf(&n("k")), Some(&100));
    let by_g = merged.march_all(&[n("p"), n("q")]).unwrap();
    assert_eq!(by_g.len(), 2);
    assert_eq!(by_g[1].get_leaf(&n("p")), Some(&2));
    assert_eq!(by_g[1].get_leaf(&n("q")), Some(&20));
    assert_eq!(merged.get_rep_leaf(&n("r")), Some(vec![&7]));
    assert!(matches!(merged.march_all(&[n("p"), n("r")]), Err(MbeError::DriveMismatch)));
}

#[test]
fn merge_of_named_groups_of_other_length_is_arity_mismatch() {
    let lhs = EnvMBE::new_from_named_repeat(n("g"), vec![leaf_i32("p", 1), leaf_i32("p", 2)]);
    let rhs = EnvMBE::new_from_named_repeat(n("g"), vec![leaf_i32("q", 10)]);
    assert!(matches!(lhs.merge(&rhs), Err(MbeError::ArityMismatch)));
}

#[test]
fn zip_of_other_lengths_without_marker_is_arity_mismatch() {
    let two = EnvMBE::new_from_anon_repeat(vec![leaf_i32("a", 1), leaf_i32("a", 2)]);
    let three = EnvMBE::new_from_anon_repeat(vec![leaf_i32("a", 1), leaf_i32("a", 2), leaf_i32("a", 3)]);
    assert!(matches!(two.map_with(&three, &|a: &i32, b: &i32| a + b), Err(MbeError::ArityMismatch)));
    assert_eq!(
        two.map_reduce_with(&three, &|a: &i32, b: &i32| a + b, &|a: &i32, b: &i32| a + b, 0),
        Err(MbeError::ArityMismatch)
    );
}

#[test]
fn zip_with_marker_on_a_side_that_is_too_long_is_arity_mismatch() {
    let long = EnvMBE::new_from_anon_repeat_ddd(
        vec![leaf_i32("a", 1), leaf_i32("a", 2), leaf_i32("a", 3)],
        Some(0),
    );
    let short = EnvMBE::new_from_anon_repeat(vec![leaf_i32("a", 1)]);
    assert!(matches!(long.map_with(&short, &|a: &i32, b: &i32| a + b), Err(MbeError::ArityMismatch)));
    assert!(matches!(short.map_with(&long, &|a: &i32, b: &i32| a + b), Err(MbeError::ArityMismatch)));
}

#[test]
fn zip_with_marker_may_leave_the_marked_element_out() {
    let pattern = EnvMBE::new_from_anon_repeat_ddd(vec![leaf_i32("a", 10), leaf_i32("a", 20)], Some(1));
    let one = EnvMBE::new_from_anon_repeat(vec![leaf_i32("a", 1)]);
    let zipped = pattern.map_with(&one, &|a: &i32, b: &i32| a + b).unwrap();
    assert_eq!(zipped.get_rep_leaf(&n("a")), Some(vec![&11]));
}

#[test]
fn zip_of_other_leaf_names_is_missing_leaf() {
    let a = leaf_i32("a", 1);
    let b = leaf_i32("b", 1);
    assert!(matches!(a.map_with(&b, &|x: &i32, y: &i32| x + y), Err(MbeError::MissingLeaf)));
    assert_eq!(
        a.map_reduce_with(&b, &|x: &i32, y: &i32| x + y, &|x: &i32, y: &i32| x + y, 0),
        Err(MbeError::MissingLeaf)
    );
}

#[test]
fn zip_result_has_no_markers() {
    let pattern = EnvMBE::new_from_anon_repeat_ddd(vec![leaf_i32("a", 10)], Some(0));
    let two = EnvMBE::new_from_anon_repeat(vec![leaf_i32("a", 1), leaf_i32("a", 2)]);
    let zipped = pattern.map_with(&two, &|a: &i32, b: &i32| a + b).unwrap();
    assert!(zipped.eq(&EnvMBE::new_from_anon_repeat(vec![leaf_i32("a", 11), leaf_i32("a", 12)])));
}

#[test]
fn fold_visits_a_group_once() {
    let mut first = EnvMBE::new();
    first.add_leaf(n("a"), 1);
    first.add_leaf(n("b"), 10);
    let mut second = EnvMBE::new();
    second.add_leaf(n("a"), 2);
    second.add_leaf(n("b"), 20);
    let mbe = EnvMBE::new_from_anon_repeat(vec![first, second]);
    let sum = mbe.map_reduce_with(&mbe, &|x: &i32, _y: &i32| *x, &|v: &i32, acc: &i32| v + acc, 0);
    assert_eq!(sum, Ok(33));
}

#[test]
fn lift_result_returns_the_first_failure() {
    let mut mbe = EnvMBE::new();
    mbe.add_leaf(n("a"), 1);
    mbe.add_leaf(n("b"), 2);
    mbe.add_anon_repeat(vec![leaf_i32("c", 3), leaf_i32("c", 4)], None);
    let failing = mbe.map(&|x: &i32| if *x >= 2 { Err(*x) } else { Ok(*x) });
    assert!(matches!(failing.lift_result(), Err(2)));
    let deep = mbe.map(&|x: &i32| if *x >= 3 { Err(*x) } else { Ok(*x) });
    assert!(matches!(deep.lift_result(), Err(3)));
    let fine = mbe.map(&|x: &i32| if *x >= 5 { Err(*x) } else { Ok(*x) });
    assert!(fine.lift_result().unwrap().eq(&mbe));
}
