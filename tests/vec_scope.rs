use scope::indices::Stride;
use scope::lens::{compose, lens, Accessor, Composed};
use scope::scope::{apply_both, Scope, Transform};
use scope::shape::Shape;
use scope::vec_scope::{get_vec_scope, set_vec_scope, VecScope};

#[test]
fn test_vec_scope() {
    let mut vec_scope: VecScope<usize> = VecScope::with_vec(vec![1, 2, 3, 4, 5]).unwrap();

    let vec_lens = VecScope::lens();

    assert_eq!(get_vec_scope(&vec_scope), 1);

    vec_lens.set(&mut vec_scope, 100);
    assert_eq!(get_vec_scope(&vec_scope), 100);

    vec_scope.adjust(1isize);
    assert_eq!(get_vec_scope(&vec_scope), 2);

    vec_scope.adjust(2usize);
    assert_eq!(get_vec_scope(&vec_scope), 3);

    vec_scope.adjust(3usize);
    assert_eq!(get_vec_scope(&vec_scope), 4);

    vec_scope.adjust(100usize);
    assert_eq!(get_vec_scope(&vec_scope), 5);

    vec_scope.adjust(-1isize);
    assert_eq!(get_vec_scope(&vec_scope), 4);

    vec_scope.adjust(100isize);
    assert_eq!(get_vec_scope(&vec_scope), 5);

    vec_lens.set(&mut vec_scope, 500);
    assert_eq!(get_vec_scope(&vec_scope), 500);

    vec_scope.adjust(-100isize);
    assert_eq!(get_vec_scope(&vec_scope), 100);
}

#[test]
fn test_vec_scope_fields() {
    let vec_lens = VecScope::lens();

    let pair_lens = lens(
        |pair: &(usize, isize)| pair.0,
        |pair: &(usize, isize), a: usize| (a, pair.1),
    );

    let vec_pair_lens: Composed<_, _, (usize, isize)> = compose(vec_lens, pair_lens);

    let mut vec_scope = VecScope::with_vec(vec![(1, 2), (3, 4)]).unwrap();

    assert_eq!(vec_scope.vec[0].0, 1);

    vec_pair_lens.set(&mut vec_scope, 100);
    assert_eq!(vec_scope.vec[0].0, 100);
    assert_eq!(vec_pair_lens.view(&vec_scope), 100);

    vec_scope.adjust(1isize);
    assert_eq!(vec_scope.vec[1].0, 3);
    assert_eq!(vec_pair_lens.view(&vec_scope), 3);
}

#[test]
fn vec_scope_seq() {
    let length = 100_000_000;
    let step = 100;
    let times = 10;

    let mut _indices: Vec<u32> = Vec::with_capacity(length);
    let mut vec_scope = VecScope::with_vec(vec![0; length]).unwrap();
    let transform1 = Transform::make_transform(
        VecScope::lens(),
        Stride::new(0, length, step),
        |val: i32| val + 1,
    );

    let transform2 = Transform::make_transform(
        VecScope::lens(),
        Stride::new(0, length, step),
        |val: i32| val + 1,
    );

    for _ in 0..times {
        transform1.transform(&mut vec_scope);
        transform2.transform(&mut vec_scope);
    }
}

#[test]
fn vec_scope_single() {
    let length = 100_000_000;
    let step = 100;
    let times = 10;

    let mut _indices: Vec<u32> = Vec::with_capacity(length);
    let mut vec_scope = VecScope::with_vec(vec![0; length]).unwrap();
    let transform1 = Transform::make_transform(
        VecScope::lens(),
        Stride::new(0, length, step),
        |val: i32| val + 1,
    );

    for _ in 0..times {
        transform1.transform(&mut vec_scope);
    }
}

#[test]
fn vec_scope_simple_1() {
    let length = 100_000_000;
    let step = 100;
    let times = 1;

    let mut vec = vec![0; length];

    for _ in 0..times {
        for index in (0..length).step_by(step) {
            vec[index] += 1;
        }
    }
}

#[test]
fn vec_scope_simple_2() {
    let length = 100_000_000;
    let step = 100;
    let times = 2;

    let mut vec = vec![0; length];

    for _ in 0..times {
        for index in (0..length).step_by(step) {
            vec[index] += 1;
        }
    }
}

#[test]
fn vec_scope_simple_10() {
    let length = 100_000_000;
    let step = 100;
    let times = 10;

    let mut vec = vec![0; length];

    for _ in 0..times {
        for index in (0..length).step_by(step) {
            vec[index] += 1;
        }
    }
}

#[test]
fn vec_scope_both() {
    let length = 100_000_000;
    let step = 100;
    let times = 10;

    let mut vec_scope = VecScope::with_vec(vec![0; length]).unwrap();
    let transform1 = Transform::make_transform(
        VecScope::lens(),
        Stride::new(0, length, step),
        |val: i32| val + 1,
    );

    let transform2 = Transform::make_transform(
        VecScope::lens(),
        Stride::new(0, length, step),
        |val: i32| val + 1,
    );

    for _ in 0..times {
        apply_both(&transform1, &transform2, &mut vec_scope);
    }
}

#[test]
fn vec_scope_rejects_empty_vector() {
    assert!(VecScope::<u8>::with_vec(vec![]).is_none());
}

#[test]
fn vec_scope_clamps_from_any_position() {
    let mut s = VecScope::with_vec(vec![1, 2, 3, 4, 5]).unwrap();
    assert_eq!(s.shape(), 5);
    for start in 0..5usize {
        s.adjust(start);
        s.adjust(-100isize);
        assert_eq!(get_vec_scope(&s), 1);
        s.adjust(start);
        s.adjust(100isize);
        assert_eq!(get_vec_scope(&s), 5);
    }
    s.adjust(usize::MAX);
    assert_eq!(s.pos, 4);
    s.adjust(isize::MIN);
    assert_eq!(s.pos, 0);
}

#[test]
fn vec_scope_round_trip_and_identity() {
    let mut s = VecScope::with_vec(vec![7u64, 8, 9]).unwrap();
    s.adjust(2usize);
    set_vec_scope(&mut s, 42);
    assert_eq!(get_vec_scope(&s), 42);
    assert_eq!(s.vec, vec![7, 8, 42]);

    let vec_lens = VecScope::lens();
    let pair_lens = lens(
        |pair: &(u8, bool)| pair.1,
        |pair: &(u8, bool), b: bool| (pair.0, b),
    );
    let nested: Composed<_, _, (u8, bool)> = compose(vec_lens, pair_lens);
    let mut p = VecScope::with_vec(vec![(1u8, true), (2, false)]).unwrap();
    p.adjust(1usize);
    let before = p.vec.clone();
    let seen = nested.view(&p);
    nested.set(&mut p, seen);
    assert_eq!(p.vec, before);
}
