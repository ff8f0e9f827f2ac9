use scope::lens::Accessor;
use scope::packed_bit_scope::{
    get_packedbit_scope_bits, get_packedbit_scope_num, set_packedbit_scope_bits,
    set_packedbit_scope_num, PackedBitScope,
};
use scope::scope::Scope;
use scope::shape::Shape;

#[test]
fn test_packedbit_scope_get_2() {
    let length = 1;
    let mut packed_scope = PackedBitScope::with_words(vec![0xA5; length], 2).unwrap();
    let packed_lens = PackedBitScope::num_lens();

    assert_eq!(packed_lens.view(&packed_scope), 0x01);
    packed_scope.adjust(1isize);
    assert_eq!(packed_lens.view(&packed_scope), 0x01);
    packed_scope.adjust(1isize);
    assert_eq!(packed_lens.view(&packed_scope), 0x02);
    packed_scope.adjust(1isize);
    assert_eq!(packed_lens.view(&packed_scope), 0x02);
}

#[test]
fn test_packedbit_scope_get_9() {
    let length = 4;
    let mut packed_scope = PackedBitScope::with_words(vec![0x11; length], 9).unwrap();
    let packed_lens = PackedBitScope::num_lens();

    assert_eq!(packed_lens.view(&packed_scope), 0x111);
    packed_scope.adjust(1isize);
    assert_eq!(packed_lens.view(&packed_scope), 0x088);
    packed_scope.adjust(1isize);
    assert_eq!(packed_lens.view(&packed_scope), 0x044);
}

#[test]
fn test_packedbit_scope_set_9() {
    let length = 4;
    let mut packed_scope = PackedBitScope::with_words(vec![0x11; length], 9).unwrap();
    let packed_lens = PackedBitScope::num_lens();

    packed_lens.set(&mut packed_scope, 0xA5);
    assert_eq!(packed_lens.view(&packed_scope), 0xA5);

    packed_scope.adjust(1isize);
    packed_lens.set(&mut packed_scope, 0x5A);
    assert_eq!(packed_lens.view(&packed_scope), 0x5a);

    packed_scope.adjust(-1isize);
    assert_eq!(packed_lens.view(&packed_scope), 0xA5);
}

#[test]
fn packed_shape_drops_partial_field() {
    let s = PackedBitScope::with_words(vec![0; 3], 5).unwrap();
    assert_eq!(s.shape(), 4);
    let s = PackedBitScope::with_words(vec![0xA5], 2).unwrap();
    assert_eq!(s.shape(), 4);
}

#[test]
fn packed_rejects_buffer_without_a_field() {
    assert!(PackedBitScope::with_words(vec![], 3).is_none());
    assert!(PackedBitScope::with_words(vec![0xFF], 9).is_none());
    assert!(PackedBitScope::with_words(vec![0xFF], 8).is_some());
    assert!(PackedBitScope::with_words(vec![0xFF; 16], 0).is_none());
    assert!(PackedBitScope::with_words(vec![0xFF; 16], 65).is_none());
    assert!(PackedBitScope::with_words(vec![0xFF; 16], 64).is_some());
}

#[test]
fn packed_clamps_to_last_field() {
    let mut s = PackedBitScope::with_words(vec![0; 3], 5).unwrap();
    s.adjust(100usize);
    assert_eq!(s.pos, 3);
    s.adjust(-100isize);
    assert_eq!(s.pos, 0);
}

#[test]
fn packed_write_keeps_neighbouring_bits() {
    // Fields of width 3 over 0xFF 0xFF: write 0 into field 2 (bits 6..9).
    let mut s = PackedBitScope::with_words(vec![0xFF, 0xFF], 3).unwrap();
    s.adjust(2usize);
    set_packedbit_scope_num(&mut s, 0);
    assert_eq!(s.bytes, vec![0x3F, 0xFE]);
    assert_eq!(get_packedbit_scope_num(&s), 0);

    // A narrow field inside one byte: bits 2..4 only.
    let mut s = PackedBitScope::with_words(vec![0xFF], 2).unwrap();
    s.adjust(1usize);
    set_packedbit_scope_num(&mut s, 0);
    assert_eq!(s.bytes, vec![0xF3]);

    // Only the low bits of the value are written.
    let mut s = PackedBitScope::with_words(vec![0x00, 0x00], 3).unwrap();
    s.adjust(1usize);
    set_packedbit_scope_num(&mut s, 0xFF);
    assert_eq!(s.bytes, vec![0x38, 0x00]);
}

#[test]
fn packed_wide_fields_round_trip() {
    let mut s = PackedBitScope::with_words(vec![0x5A; 20], 37).unwrap();
    let before = s.bytes.clone();
    s.adjust(2usize);
    set_packedbit_scope_num(&mut s, 0x1F_2345_6789);
    assert_eq!(get_packedbit_scope_num(&s), 0x1F_2345_6789);
    s.adjust(1usize);
    assert_eq!(get_packedbit_scope_num(&s), field_of(&before, 37, 37));
    s.adjust(3usize);
    assert_eq!(get_packedbit_scope_num(&s), field_of(&before, 111, 37));

    let mut s = PackedBitScope::with_words(vec![0; 8], 64).unwrap();
    set_packedbit_scope_num(&mut s, u64::MAX - 1);
    assert_eq!(get_packedbit_scope_num(&s), u64::MAX - 1);
    assert_eq!(s.bytes, vec![0xFE, 0xFF, 0xFF, 0xFF, 0xFF, 0xFF, 0xFF, 0xFF]);
}

fn field_of(bytes: &[u8], start: usize, width: usize) -> u64 {
    let mut v: u64 = 0;
    for j in 0..width {
        let k = start + j;
        if (bytes[k / 8] >> (k % 8)) & 1 == 1 {
            v |= 1 << j;
        }
    }
    v
}

#[test]
fn packed_bit_lens_reads_lowest_bit_of_field() {
    let mut s = PackedBitScope::with_words(vec![0b0100_0000, 0], 3).unwrap();
    let bits = PackedBitScope::bit_lens();
    assert!(!bits.view(&s));
    s.adjust(2usize);
    assert!(bits.view(&s));
    set_packedbit_scope_bits(&mut s, false);
    assert_eq!(s.bytes, vec![0, 0]);
    assert!(!get_packedbit_scope_bits(&s));
}

fn bit(bytes: &[u8], k: usize) -> bool {
    (bytes[k / 8] >> (k % 8)) & 1 == 1
}

fn low_mask(w: usize) -> u64 {
    if w == 64 {
        u64::MAX
    } else {
        (1u64 << w) - 1
    }
}

#[test]
fn packed_every_width_round_trips_and_keeps_other_bits() {
    for w in 1..=64usize {
        let bytes: Vec<u8> = (0..24u8).map(|i| i.wrapping_mul(37) ^ 0xA5).collect();
        let mut s = PackedBitScope::with_words(bytes, w).unwrap();
        let shape = s.shape();
        assert_eq!(shape, 24 * 8 / w);
        for p in [0, shape / 2, shape - 1] {
            s.adjust(p);
            let v: u64 = 0x0123_4567_89AB_CDEF & low_mask(w);
            let before = s.bytes.clone();
            set_packedbit_scope_num(&mut s, v);
            assert_eq!(get_packedbit_scope_num(&s), v);
            assert_eq!(s.bytes.len(), before.len());
            for k in 0..before.len() * 8 {
                if k < p * w || k >= p * w + w {
                    assert_eq!(bit(&before, k), bit(&s.bytes, k));
                } else {
                    assert_eq!(bit(&s.bytes, k), (v >> (k - p * w)) & 1 == 1);
                }
            }
            let read = get_packedbit_scope_num(&s);
            let after = s.bytes.clone();
            set_packedbit_scope_num(&mut s, read);
            assert_eq!(s.bytes, after);
        }
    }
}
