use vstd::arithmetic::power2::{lemma2_to64, lemma2_to64_rest, lemma_pow2_unfold, pow2};
use vstd::bits::{lemma_u64_pow2_no_overflow, lemma_u64_shl_is_mul};
use vstd::prelude::*;

verus! {

/// Bit `q` of a byte.
pub open spec fn byte_bit(b: u8, q: int) -> bool {
    (b >> (q as u8)) & 1u8 == 1u8
}

/// Bit `k` of a byte buffer, counting from the lowest bit of the first byte
/// (bit `k % 8` of byte `k / 8`).
pub open spec fn bit_of(bytes: Seq<u8>, k: int) -> bool {
    byte_bit(bytes[k / 8], k % 8)
}

/// A byte buffer seen as its sequence of bits, lowest bit of the first byte
/// first.
pub open spec fn bits_of(bytes: Seq<u8>) -> Seq<bool> {
    Seq::new(8 * bytes.len(), |k: int| bit_of(bytes, k))
}

/// Bit `j` of a word.
pub open spec fn word_bit(v: u64, j: int) -> bool {
    (v >> (j as u64)) & 1u64 == 1u64
}

/// The number spelled by `w` bits starting at `start`, the first of them
/// being the lowest.
pub open spec fn field_value(bits: Seq<bool>, start: int, w: nat) -> nat
    decreases w,
{
    if w == 0 {
        0
    } else {
        (if bits[start] { 1nat } else { 0nat }) + 2 * field_value(bits, start + 1, (w - 1) as nat)
    }
}

/// `bits` with the `w` bits from `start` replaced by the low `w` bits of
/// `v`; every other bit is kept.
pub open spec fn with_field(bits: Seq<bool>, start: int, w: nat, v: u64) -> Seq<bool> {
    Seq::new(
        bits.len(),
        |k: int|
            if start <= k < start + w {
                word_bit(v, k - start)
            } else {
                bits[k]
            },
    )
}

/// The bit of a buffer at `8 * i + t` is bit `t` of byte `i`.
pub proof fn lemma_bit_in_byte(bytes: Seq<u8>, i: int, t: int)
    requires
        0 <= t < 8,
    ensures
        (8 * i + t) / 8 == i,
        (8 * i + t) % 8 == t,
        bit_of(bytes, 8 * i + t) == byte_bit(bytes[i], t),
{
    assert((8 * i + t) / 8 == i && (8 * i + t) % 8 == t) by (nonlinear_arith)
        requires
            0 <= t < 8,
    ;
}

/// `1 << f` is `2^f` for a word.
pub proof fn lemma_one_shl(f: u64)
    requires
        f < 64,
    ensures
        (1u64 << f) as nat == pow2(f as nat),
{
    lemma_u64_pow2_no_overflow(f as nat);
    lemma_u64_shl_is_mul(1u64, f);
}

/// Every word lies below `2^64`.
pub proof fn lemma_word_below_pow2_64(v: u64)
    ensures
        (v as nat) < pow2(64),
{
    lemma2_to64_rest();
}

/// A word below `2^w` whose low `w` bits are the bits of a field is that
/// field's value.
pub proof fn lemma_field_of_word(bits: Seq<bool>, start: int, w: nat, v: u64)
    requires
        w <= 64,
        (v as nat) < pow2(w),
        forall|j: int| 0 <= j < w ==> bits[start + j] == word_bit(v, j),
    ensures
        field_value(bits, start, w) == v as nat,
    decreases w,
{
    if w == 0 {
        lemma2_to64();
    } else {
        let h: u64 = v >> 1u64;
        assert(v >> 1u64 == v / 2) by (bit_vector);
        assert(((v >> 0u64) & 1u64 == 1u64) == (v % 2 == 1)) by (bit_vector);
        lemma_pow2_unfold(w);
        assert forall|j: int| 0 <= j < w - 1 implies bits[(start + 1) + j] == word_bit(h, j) by {
            let ju = j as u64;
            assert(((v >> 1u64) >> ju) & 1u64 == (v >> (ju + 1)) & 1u64) by (bit_vector)
                requires
                    ju < 63,
            ;
            assert(bits[start + (j + 1)] == word_bit(v, j + 1));
            assert(start + (j + 1) == (start + 1) + j);
        }
        lemma_field_of_word(bits, start + 1, (w - 1) as nat, h);
        assert(bits[start + 0] == word_bit(v, 0));
    }
}

/// Writing a field and reading it back gives the value written, when the
/// value fits in the field.
pub proof fn lemma_with_field_read_back(bits: Seq<bool>, start: int, w: nat, v: u64)
    requires
        0 <= start,
        start + w <= bits.len(),
        w <= 64,
        (v as nat) < pow2(w),
    ensures
        field_value(with_field(bits, start, w, v), start, w) == v as nat,
{
    let nb = with_field(bits, start, w, v);
    assert forall|j: int| 0 <= j < w implies nb[start + j] == word_bit(v, j) by {
        assert(nb[start + j] == word_bit(v, (start + j) - start));
    }
    lemma_field_of_word(nb, start, w, v);
}

/// A field of `w` bits has a value below `2^w`.
pub proof fn lemma_field_value_bound(bits: Seq<bool>, start: int, w: nat)
    ensures
        field_value(bits, start, w) < pow2(w),
    decreases w,
{
    if w == 0 {
        lemma2_to64();
    } else {
        lemma_field_value_bound(bits, start + 1, (w - 1) as nat);
        lemma_pow2_unfold(w);
    }
}

/// Halving a word: its lowest bit, and the bits of the rest one place down.
proof fn lemma_word_halves(x: u64, r: u64, b: u64, j: u64)
    by (bit_vector)
    requires
        b <= 1,
        r < 0x8000_0000_0000_0000u64,
        x == b + 2 * r,
        1 <= j < 64,
    ensures
        ((x >> 0u64) & 1u64 == 1u64) == (b == 1),
        ((x >> j) & 1u64 == 1u64) == ((r >> ((j - 1) as u64)) & 1u64 == 1u64),
{
}

/// The bits of a field's value, as a word, are the bits of the field.
pub proof fn lemma_word_of_field(bits: Seq<bool>, start: int, w: nat, j: int)
    requires
        1 <= w <= 64,
        0 <= j < w,
    ensures
        word_bit(field_value(bits, start, w) as u64, j) == bits[start + j],
    decreases w,
{
    let r = field_value(bits, start + 1, (w - 1) as nat);
    let x = field_value(bits, start, w);
    lemma_field_value_bound(bits, start + 1, (w - 1) as nat);
    lemma_field_value_bound(bits, start, w);
    lemma2_to64();
    lemma2_to64_rest();
    if w - 1 < 63 {
        vstd::arithmetic::power2::lemma_pow2_strictly_increases((w - 1) as nat, 63);
    }
    assert(r < 0x8000_0000_0000_0000);
    let b: u64 = if bits[start] { 1 } else { 0 };
    assert(x == b + 2 * r);
    if j == 0 {
        lemma_word_halves(x as u64, r as u64, b, 1);
    } else {
        lemma_word_halves(x as u64, r as u64, b, j as u64);
        lemma_word_of_field(bits, start + 1, (w - 1) as nat, j - 1);
        assert(start + 1 + (j - 1) == start + j);
    }
}

/// Writing into a field the value read from it leaves the bits as they were.
pub proof fn lemma_with_field_of_own_value(bits: Seq<bool>, start: int, w: nat)
    requires
        1 <= w <= 64,
    ensures
        with_field(bits, start, w, field_value(bits, start, w) as u64) =~= bits,
{
    let v = field_value(bits, start, w) as u64;
    assert forall|k: int| 0 <= k < bits.len() implies #[trigger] with_field(bits, start, w, v)[k]
        == bits[k] by {
        if start <= k < start + w {
            lemma_word_of_field(bits, start, w, k - start);
        }
    }
}

/// Bit `t` of a byte set to `a`, its other bits kept.
pub open spec fn with_bit(b: u8, t: int, a: bool) -> u8 {
    (b & !(1u8 << (t as u8))) | ((if a { 1u8 } else { 0u8 }) << (t as u8))
}

/// The bits of a byte after `with_bit`.
pub proof fn lemma_with_bit(b: u8, t: u8, a: bool, q: u8)
    by (bit_vector)
    requires
        t < 8,
        q < 8,
    ensures
        ((((b & !(1u8 << t)) | ((if a { 1u8 } else { 0u8 }) << t)) >> q) & 1u8 == 1u8) == (if q
            == t {
            a
        } else {
            (b >> q) & 1u8 == 1u8
        }),
{
}

/// Setting bit `t` of byte `i` sets bit `8 * i + t` of the buffer.
pub proof fn lemma_write_bit(bytes: Seq<u8>, i: int, t: int, a: bool)
    requires
        0 <= i < bytes.len(),
        0 <= t < 8,
    ensures
        bits_of(bytes.update(i, with_bit(bytes[i], t, a))) == bits_of(bytes).update(8 * i + t, a),
{
    let nb = with_bit(bytes[i], t, a);
    let nbytes = bytes.update(i, nb);
    let target = bits_of(bytes).update(8 * i + t, a);
    assert forall|k: int| 0 <= k < 8 * bytes.len() implies #[trigger] bits_of(nbytes)[k]
        == target[k] by {
        let bi = k / 8;
        let q = k % 8;
        vstd::arithmetic::div_mod::lemma_fundamental_div_mod(k, 8);
        lemma_bit_in_byte(nbytes, bi, q);
        lemma_bit_in_byte(bytes, bi, q);
        assert(bits_of(nbytes)[k] == byte_bit(nbytes[bi], q));
        if bi == i {
            lemma_with_bit(bytes[i], t as u8, a, q as u8);
        }
    }
    assert(bits_of(nbytes) =~= target);
}

} // verus!
