use scope::indices::{Indices, Stride};
use scope::lens::Accessor;
use scope::packed_bit_scope::PackedBitScope;
use scope::scope::{apply_both, apply_many, scope_ixmap, scope_map, Scope, Transform};
use scope::vec_scope::{VecLens, VecScope};

fn record(scope: &VecScope<u64>) -> Vec<u64> {
    scope.vec.clone()
}

#[test]
fn transform_visits_each_index_in_order() {
    let mut s = VecScope::with_vec(vec![0u64; 6]).unwrap();
    let t = Transform::make_transform(VecScope::lens(), vec![1, 3, 3, 5], |v: u64| v * 10 + 1);
    t.transform(&mut s);
    assert_eq!(record(&s), vec![0, 1, 0, 11, 0, 1]);
}

#[test]
fn transform_clamps_out_of_range_indices() {
    let mut s = VecScope::with_vec(vec![0u64; 3]).unwrap();
    let t = Transform::make_transform(VecScope::lens(), vec![0, 7], |v: u64| v + 1);
    t.transform(&mut s);
    assert_eq!(record(&s), vec![1, 0, 1]);
}

#[test]
fn apply_both_runs_first_before_second_on_ties() {
    // Appending a digit shows the order in which the updates ran.
    let mut s = VecScope::with_vec(vec![0u64; 6]).unwrap();
    let t1 = Transform::make_transform(VecScope::lens(), vec![0, 2, 4], |v: u64| v * 10 + 1);
    let t2 = Transform::make_transform(VecScope::lens(), vec![2, 3, 4, 5], |v: u64| v * 10 + 2);
    apply_both(&t1, &t2, &mut s);
    assert_eq!(record(&s), vec![1, 0, 12, 2, 12, 2]);
}

#[test]
fn apply_both_with_one_empty_side() {
    let mut s = VecScope::with_vec(vec![0u64; 3]).unwrap();
    let t1 = Transform::make_transform(VecScope::lens(), vec![], |v: u64| v + 1);
    let t2 = Transform::make_transform(VecScope::lens(), vec![0, 2], |v: u64| v + 5);
    apply_both(&t1, &t2, &mut s);
    assert_eq!(record(&s), vec![5, 0, 5]);
}

#[test]
fn apply_many_visits_union_once_per_transform() {
    let mut s = VecScope::with_vec(vec![0u64; 6]).unwrap();
    let f = |v: u64| v + 1;
    let transforms = vec![
        Transform::make_transform(VecScope::lens(), vec![0, 5], f),
        Transform::make_transform(VecScope::lens(), vec![1, 5], f),
        Transform::make_transform(VecScope::lens(), vec![0, 1, 2, 5], f),
    ];
    apply_many(transforms, &mut s);
    assert_eq!(record(&s), vec![2, 2, 1, 0, 0, 3]);
}

#[test]
fn apply_many_orders_ties_by_transform() {
    // A shared index is visited by the earlier transform first, even when
    // the later one reached it first.
    let mut s = VecScope::with_vec(vec![0u64; 6]).unwrap();
    let digit = |d: u64| move |v: u64| v * 10 + d;
    let transforms = vec![
        Transform::make_transform(VecScope::lens(), vec![0, 5], digit(1)),
        Transform::make_transform(VecScope::lens(), vec![5], digit(2)),
    ];
    apply_many(transforms, &mut s);
    assert_eq!(record(&s), vec![1, 0, 0, 0, 0, 12]);
}

#[test]
fn apply_many_of_nothing() {
    let mut s = VecScope::with_vec(vec![3u64; 2]).unwrap();
    let transforms: Vec<Transform<fn(u64) -> u64, VecLens<u64>, VecScope<u64>, u64, Vec<usize>>> = vec![];
    apply_many(transforms, &mut s);
    assert_eq!(record(&s), vec![3, 3]);
}

#[test]
fn scope_map_reaches_every_field() {
    let mut s = PackedBitScope::with_words(vec![0u8; 3], 3).unwrap();
    let t = Transform::make_transform(PackedBitScope::num_lens(), vec![], |v: u64| v + 5);
    scope_map(&mut s, t.action);
    let lens = PackedBitScope::num_lens();
    for i in 0..8usize {
        s.adjust(i);
        assert_eq!(lens.view(&s), 5);
    }
}

#[test]
fn scope_ixmap_follows_given_indices() {
    let mut s = VecScope::with_vec(vec![0u64; 4]).unwrap();
    let t = Transform::make_transform(VecScope::lens(), vec![], |v: u64| v + 2);
    scope_ixmap(&mut s, vec![3, 1, 3], t.action);
    assert_eq!(record(&s), vec![0, 2, 0, 4]);
}

#[test]
fn stride_positions_match_step_by() {
    let stride = Stride::new(3, 20, 4);
    let expected: Vec<usize> = (3..20).step_by(4).collect();
    assert_eq!(stride.count(), expected.len());
    for (k, p) in expected.iter().enumerate() {
        assert_eq!(stride.at(k), *p);
    }
    assert_eq!(Stride::new(5, 5, 1).count(), 0);
    assert_eq!(Stride::new(0, 10, 0).count(), 0);
}

#[test]
fn strided_transform_equals_listed_one() {
    let mut a = VecScope::with_vec(vec![0u64; 10]).unwrap();
    let mut b = VecScope::with_vec(vec![0u64; 10]).unwrap();
    let t1 = Transform::make_transform(VecScope::lens(), Stride::new(1, 10, 3), |v: u64| v + 7);
    let t2 = Transform::make_transform(VecScope::lens(), vec![1usize, 4, 7], |v: u64| v + 7);
    t1.transform(&mut a);
    t2.transform(&mut b);
    assert_eq!(a.vec, b.vec);
    assert_eq!(record(&a), vec![0, 7, 0, 0, 7, 0, 0, 7, 0, 0]);
}
