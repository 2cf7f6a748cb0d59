use unseemly::name::n;
use unseemly::util::assoc::Assoc;
use unseemly::util::mbe::{EnvMBE, MbeError};

fn group(values: &[i32]) -> Vec<EnvMBE<i32>> {
    values.iter().map(|v| EnvMBE::new_from_leaves(Assoc::new().set(n("v"), *v))).collect()
}

fn values(pairs: &[(&EnvMBE<i32>, &EnvMBE<i32>)]) -> Vec<(i32, i32)> {
    pairs.iter().map(|p| (*p.0.get_leaf(&n("v")).unwrap(), *p.1.get_leaf(&n("v")).unwrap())).collect()
}

#[test]
fn without_markers_the_lengths_must_agree() {
    let l = group(&[1, 2]);
    let r = group(&[5, 6]);
    let longer = group(&[5, 6, 7]);
    assert_eq!(values(&EnvMBE::resolve_ddd(&l, None, &r, None).unwrap()), vec![(1, 5), (2, 6)]);
    assert!(matches!(EnvMBE::resolve_ddd(&l, None, &longer, None), Err(MbeError::ArityMismatch)));
}

#[test]
fn a_marker_on_the_left_stretches_the_left() {
    let l = group(&[1, 2, 3]);
    let r = group(&[5, 6, 7, 8, 9]);
    assert_eq!(
        values(&EnvMBE::resolve_ddd(&l, Some(1), &r, None).unwrap()),
        vec![(1, 5), (2, 6), (2, 7), (2, 8), (3, 9)]
    );
    let short = group(&[5, 6]);
    assert_eq!(values(&EnvMBE::resolve_ddd(&l, Some(1), &short, None).unwrap()), vec![(1, 5), (3, 6)]);
    let too_short = group(&[5]);
    assert!(matches!(
        EnvMBE::resolve_ddd(&l, Some(1), &too_short, None),
        Err(MbeError::ArityMismatch)
    ));
}

#[test]
fn a_marker_on_the_right_stretches_the_right() {
    let l = group(&[1, 2, 3, 4]);
    let r = group(&[5, 6]);
    assert_eq!(
        values(&EnvMBE::resolve_ddd(&l, None, &r, Some(0)).unwrap()),
        vec![(1, 5), (2, 5), (3, 5), (4, 6)]
    );
    let none = group(&[]);
    assert!(matches!(EnvMBE::resolve_ddd(&none, None, &l, Some(0)), Err(MbeError::ArityMismatch)));
}

#[test]
fn markers_on_both_sides_are_ambiguous() {
    let l = group(&[1]);
    let r = group(&[5]);
    assert!(matches!(
        EnvMBE::resolve_ddd(&l, Some(0), &r, Some(0)),
        Err(MbeError::AmbiguousElision)
    ));
}
