use scope::bit_vec_scope::{get_vec_scope, set_vec_scope, BitVecScope};
use scope::lens::Accessor;
use scope::scope::Scope;
use scope::shape::Shape;

#[test]
fn test_bit_vec_scope() {
    let mut bit_vec_scope = BitVecScope::with_bytes(vec![1, 2, 3, 4, 0x80]).unwrap();

    let lens = BitVecScope::lens();

    assert_eq!(lens.view(&bit_vec_scope), true);

    lens.set(&mut bit_vec_scope, false);
    assert_eq!(lens.view(&bit_vec_scope), false);

    bit_vec_scope.adjust(1usize);
    lens.set(&mut bit_vec_scope, true);
    assert_eq!(bit_vec_scope.bytes[0], 0x02);

    bit_vec_scope.adjust(100isize);
    assert_eq!(lens.view(&bit_vec_scope), true);
}

#[test]
fn bit_vec_scope_rejects_empty_buffer() {
    assert!(BitVecScope::with_bytes(vec![]).is_none());
}

#[test]
fn bit_vec_scope_shape_counts_bits() {
    let s = BitVecScope::with_bytes(vec![0, 0, 0]).unwrap();
    assert_eq!(s.shape(), 24);
}

#[test]
fn bit_vec_scope_clamps_both_ways() {
    let mut s = BitVecScope::with_bytes(vec![0, 0]).unwrap();
    s.adjust(1000usize);
    assert_eq!(s.pos, 15);
    s.adjust(-1000isize);
    assert_eq!(s.pos, 0);
    s.adjust(3isize);
    s.adjust(-1isize);
    assert_eq!(s.pos, 2);
}

#[test]
fn bit_vec_scope_set_keeps_other_bits() {
    let mut s = BitVecScope::with_bytes(vec![0xFF, 0x00]).unwrap();
    s.adjust(3usize);
    set_vec_scope(&mut s, false);
    assert_eq!(s.bytes, vec![0xF7, 0x00]);
    s.adjust(12usize);
    set_vec_scope(&mut s, true);
    assert_eq!(s.bytes, vec![0xF7, 0x10]);
    assert!(get_vec_scope(&s));
    assert_eq!(s.byte_index(), 1);
    assert_eq!(s.current_byte(), 0x10);
}
