use scope::bit_word_scope::{get_bitword_scope_bits, set_bitword_scope_bits, BitWordScope};
use scope::lens::Accessor;
use scope::scope::Scope;

#[test]
fn test_bit_word_scope() {
    let mut bit_word_scope = BitWordScope::with_words(vec![1, 2, 3, 4, 0x7], 3).unwrap();

    let lens = BitWordScope::lens();

    let current: u8 = lens.view(&bit_word_scope);
    assert_eq!(current, 1);

    let current: u8 = lens.view(&bit_word_scope);
    assert_eq!(current, 1);

    lens.set(&mut bit_word_scope, 100);
    let current: u8 = lens.view(&bit_word_scope);
    assert_eq!(current, 100);

    bit_word_scope.adjust(1usize);
    lens.set(&mut bit_word_scope, 100);
    assert_eq!(bit_word_scope.vec[0], 100);

    bit_word_scope.adjust(100isize);
    let current: u8 = lens.view(&bit_word_scope);
    assert_eq!(current, 7);

    bit_word_scope.adjust(100usize);
    let current: u8 = lens.view(&bit_word_scope);
    assert_eq!(current, 0x07);
}

#[test]
fn bit_word_scope_bits() {
    let mut s = BitWordScope::with_words(vec![0b101, 0b010], 3).unwrap();
    let bits = BitWordScope::bit_lens();
    assert!(bits.view(&s));
    s.adjust(1usize);
    assert!(!bits.view(&s));
    s.adjust(4usize);
    assert!(get_bitword_scope_bits(&s));
    set_bitword_scope_bits(&mut s, false);
    assert_eq!(s.vec, vec![0b101, 0b000]);
    assert!(BitWordScope::with_words(vec![], 3).is_none());
    assert!(BitWordScope::with_words(vec![1], 0).is_none());
    assert!(BitWordScope::with_words(vec![1], 9).is_none());
}
