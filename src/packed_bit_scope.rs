use vstd::arithmetic::power2::pow2;
use vstd::prelude::*;

use crate::bits::{
    bits_of, byte_bit, field_value, lemma_bit_in_byte, lemma_field_of_word, lemma_one_shl,
    lemma_with_field_of_own_value, lemma_with_field_read_back, lemma_word_below_pow2_64, lemma_write_bit, with_bit, with_field,
    word_bit,
};
use crate::lens::{set_view_law, view_set_law, Accessor};
use crate::scope::{clamp_position, fits, Scope};
use crate::shape::Shape;

verus! {

/// A cursor over fields of `bits_used` bits packed into a byte buffer.
///
/// Field `i` occupies bits `i * bits_used .. (i + 1) * bits_used` of the
/// buffer (bit `k` being bit `k % 8` of byte `k / 8`); fields may straddle
/// byte boundaries. Its model is the buffer's bits, the position and the
/// field width.
pub struct PackedBitScope {
    pub bytes: Vec<u8>,
    pub pos: usize,
    pub bits_used: usize,
}

impl View for PackedBitScope {
    type V = (Seq<bool>, nat, nat);

    open spec fn view(&self) -> (Seq<bool>, nat, nat) {
        (bits_of(self.bytes@), self.pos as nat, self.bits_used as nat)
    }
}

/// The first bit of the field under the cursor.
pub open spec fn field_start(v: (Seq<bool>, nat, nat)) -> int {
    (v.1 * v.2) as int
}

/// The value of the field under the cursor.
pub open spec fn field_at(v: (Seq<bool>, nat, nat)) -> nat {
    field_value(v.0, field_start(v), v.2)
}

/// The first field of width `w` lies inside a buffer of `n` bits when
/// `w <= n`, and field `pos` does when `pos < n / w`.
proof fn lemma_field_in_buffer(pos: nat, w: nat, n: nat)
    requires
        w > 0,
        pos < n / w,
    ensures
        pos * w + w <= n,
{
    vstd::arithmetic::div_mod::lemma_fundamental_div_mod(n as int, w as int);
    vstd::arithmetic::div_mod::lemma_mod_pos_bound(n as int, w as int);
    assert(pos * w + w <= n) by (nonlinear_arith)
        requires
            w > 0,
            pos < n / w,
            (n / w) * w <= n,
    {
        assert(pos + 1 <= n / w);
        assert((pos + 1) * w <= (n / w) * w);
    }
}

impl Shape for PackedBitScope {
    open spec fn well_formed(v: (Seq<bool>, nat, nat)) -> bool {
        &&& 1 <= v.2 <= 64
        &&& v.0.len() <= usize::MAX
        &&& v.0.len() % 8 == 0
        &&& v.2 <= v.0.len()
        &&& v.1 < v.0.len() / v.2
    }

    open spec fn shape_of(v: (Seq<bool>, nat, nat)) -> nat {
        v.0.len() / v.2
    }

    fn shape(&self) -> (r: usize) {
        (self.bytes.len() * 8) / self.bits_used
    }
}

impl PackedBitScope {
    /// The accessor for the lowest bit of the field under the cursor.
    pub fn bit_lens() -> (r: PackedBitLens) {
        PackedBitLens
    }

    /// The accessor for the field under the cursor, as a number.
    pub fn num_lens() -> (r: PackedNumLens) {
        PackedNumLens
    }

    /// A cursor at field 0. `None` when the field width is 0 or wider than
    /// a word, or when the buffer holds no whole field.
    pub fn with_words(bytes: Vec<u8>, bits_used: usize) -> (r: Option<PackedBitScope>)
        requires
            bytes.len() <= usize::MAX / 8,
        ensures
            r is None <==> (bits_used == 0 || bits_used > 64 || bytes.len() * 8 < bits_used),
            r matches Some(s) ==> {
                &&& s.bytes == bytes
                &&& s.pos == 0
                &&& s.bits_used == bits_used
                &&& PackedBitScope::well_formed(s@)
            },
    {
        if bits_used == 0 || bits_used > 64 || bytes.len() * 8 < bits_used {
            None
        } else {
            let s = PackedBitScope { bytes, pos: 0, bits_used };
            proof {
                vstd::arithmetic::div_mod::lemma_div_pos_is_pos(
                    (s.bytes.len() * 8) as int,
                    bits_used as int,
                );
                assert(s@.0.len() / s@.2 >= 1) by (nonlinear_arith)
                    requires
                        s@.2 <= s@.0.len(),
                        s@.2 >= 1,
                {
                    vstd::arithmetic::div_mod::lemma_div_is_ordered(s@.2 as int, s@.0.len() as int, s@.2 as int);
                    vstd::arithmetic::div_mod::lemma_div_by_self(s@.2 as int);
                }
            }
            Some(s)
        }
    }
}


/// Bit `j` of `n | (c << f)`: the bits of `n` below `f`, then those of `c`.
proof fn lemma_or_shifted(n: u64, c: u64, f: u64, width: u64, j: u64)
    by (bit_vector)
    requires
        1 <= width <= 8,
        f + width <= 64,
        n < (1u64 << f),
        c < (1u64 << width),
        j < 64,
    ensures
        ((n | (c << f)) >> j) & 1u64 == (if j < f {
            (n >> j) & 1u64
        } else if j < f + width {
            (c >> ((j - f) as u64)) & 1u64
        } else {
            0u64
        }),
        f + width < 64 ==> (n | (c << f)) < (1u64 << ((f + width) as u64)),
{
}

/// The low `l` bits of a byte, widened to a word.
proof fn lemma_masked_byte(x: u8, l: u8, t: u8)
    by (bit_vector)
    requires
        1 <= l <= 8,
        t < 8,
    ensures
        (((x & (((1u8 << l) - 1u8) as u8)) as u64) >> (t as u64)) & 1u64 == (if t < l {
            ((x >> t) & 1u8) as u64
        } else {
            0u64
        }),
        ((x & (((1u8 << l) - 1u8) as u8)) as u64) < (1u64 << (l as u64)),
{
}

/// `1 << t` is at least one for a byte.
proof fn lemma_byte_one_shl(t: u8)
    by (bit_vector)
    requires
        t < 8,
    ensures
        1u8 <= (1u8 << t),
{
}

/// A byte widened to a word keeps its bits.
proof fn lemma_byte_word(b: u8, t: u8)
    by (bit_vector)
    requires
        t < 8,
    ensures
        ((b as u64) >> (t as u64)) & 1u64 == ((b >> t) & 1u8) as u64,
        (b as u64) < 256,
{
}

/// A byte shifted right by `s` holds bit `s + j` of the byte at bit `j`.
proof fn lemma_shifted_byte(b: u8, s: u8, j: u8)
    by (bit_vector)
    requires
        s + j < 8,
    ensures
        ((b >> s) >> j) & 1u8 == (b >> ((s + j) as u8)) & 1u8,
{
}

/// The bits that the read of the field under the cursor has gathered so far.
spec fn gathered(n: u64, bits: Seq<bool>, start: int, found: nat) -> bool {
    &&& (n as nat) < pow2(found)
    &&& forall|j: int| 0 <= j < found ==> word_bit(n, j) == bits[start + j]
}

/// One more piece of `width` bits (`c`) read at bit `start + f`.
proof fn lemma_gather_step(
    n: u64,
    c: u64,
    f: u64,
    width: u64,
    bits: Seq<bool>,
    start: int,
    piece: spec_fn(int) -> bool,
)
    requires
        1 <= width <= 8,
        f + width <= 64,
        gathered(n, bits, start, f as nat),
        (c as nat) < pow2(width as nat),
        forall|t: int| 0 <= t < width ==> word_bit(c, t) == #[trigger] piece(t),
        forall|t: int| 0 <= t < width ==> bits[start + f + t] == #[trigger] piece(t),
    ensures
        gathered(n | (c << f), bits, start, (f + width) as nat),
{
    let r = n | (c << f);
    lemma_one_shl(f);
    lemma_one_shl(width);
    assert forall|j: int| 0 <= j < f + width implies word_bit(r, j) == bits[start + j] by {
        lemma_or_shifted(n, c, f, width, j as u64);
        if j < f {
            assert(word_bit(r, j) == word_bit(n, j));
        } else {
            assert(word_bit(r, j) == word_bit(c, j - f));
            assert(word_bit(c, j - f) == piece(j - f));
            assert(bits[start + f + (j - f)] == piece(j - f));
            assert(start + f + (j - f) == start + j);
        }
    }
    lemma_or_shifted(n, c, f, width, 0);
    if f + width < 64 {
        lemma_one_shl((f + width) as u64);
    } else {
        lemma_word_below_pow2_64(r);
    }
}

/// Reads the field under the cursor: first the high bits of a partly
/// covered first byte, then whole bytes, then the low bits of a partly
/// covered last byte.
pub fn get_packedbit_scope_num(packedbit_scope: &PackedBitScope) -> (r: u64)
    requires
        PackedBitScope::well_formed(packedbit_scope@),
    ensures
        r as nat == field_at(packedbit_scope@),
{
    let ghost v = packedbit_scope@;
    let ghost bits = v.0;
    let ghost bytes = packedbit_scope.bytes@;
    let w = packedbit_scope.bits_used;
    proof {
        lemma_field_in_buffer(v.1, v.2, bits.len());
    }
    let bit_pos = packedbit_scope.pos * w;
    let ghost start = bit_pos as int;
    let mut index = bit_pos / 8;
    let shift = bit_pos % 8;
    let mut left: usize = w;
    let mut found: usize = 0;
    let mut n: u64 = 0;
    proof {
        vstd::arithmetic::power2::lemma2_to64();
    }
    if shift != 0 {
        let take: usize = if 8 - shift < w { 8 - shift } else { w };
        let b = packedbit_scope.bytes[index];
        proof {
            lemma_byte_one_shl(take as u8);
        }
        let c = ((b >> (shift as u8)) & ((1u8 << (take as u8)) - 1)) as u64;
        proof {
            let ghost piece = |t: int| ((b >> (shift as u8)) >> (t as u8)) & 1u8 == 1u8;
            lemma_masked_byte(b >> (shift as u8), take as u8, 0);
            lemma_one_shl(take as u64);
            assert forall|t: int| 0 <= t < take implies word_bit(c, t) == #[trigger] piece(t) by {
                lemma_masked_byte(b >> (shift as u8), take as u8, t as u8);
            }
            assert forall|t: int| 0 <= t < take implies bits[start + 0 + t] == #[trigger] piece(t) by {
                lemma_shifted_byte(b, shift as u8, t as u8);
                lemma_bit_in_byte(bytes, index as int, shift + t);
            }
            lemma_gather_step(n, c, 0, take as u64, bits, start, piece);
            assert(0u64 | (c << 0u64) == c) by (bit_vector);
        }
        n = c;
        found = take;
        left = w - take;
        index = index + 1;
    }
    while left >= 8
        invariant
            bits == bits_of(bytes),
            bytes == packedbit_scope.bytes@,
            start + w <= bits.len(),
            bits.len() == 8 * bytes.len(),
            bits.len() <= usize::MAX,
            1 <= w <= 64,
            found + left == w,
            gathered(n, bits, start, found as nat),
            left > 0 ==> index * 8 == start + found,
        decreases left,
    {
        let b = packedbit_scope.bytes[index];
        let c = b as u64;
        proof {
            let ghost piece = |t: int| (b >> (t as u8)) & 1u8 == 1u8;
            lemma_byte_word(b, 0);
            vstd::arithmetic::power2::lemma2_to64();
            assert forall|t: int| 0 <= t < 8 implies word_bit(c, t) == #[trigger] piece(t) by {
                lemma_byte_word(b, t as u8);
            }
            assert forall|t: int| 0 <= t < 8 implies bits[start + found + t] == #[trigger] piece(t) by {
                lemma_bit_in_byte(bytes, index as int, t);
            }
            lemma_gather_step(n, c, found as u64, 8, bits, start, piece);
        }
        n = n | (c << (found as u64));
        found = found + 8;
        left = left - 8;
        index = index + 1;
    }
    if left > 0 {
        let b = packedbit_scope.bytes[index];
        proof {
            lemma_byte_one_shl(left as u8);
        }
        let c = (b & ((1u8 << (left as u8)) - 1)) as u64;
        proof {
            let ghost piece = |t: int| (b >> (t as u8)) & 1u8 == 1u8;
            lemma_masked_byte(b, left as u8, 0);
            lemma_one_shl(left as u64);
            assert forall|t: int| 0 <= t < left implies word_bit(c, t) == #[trigger] piece(t) by {
                lemma_masked_byte(b, left as u8, t as u8);
            }
            assert forall|t: int| 0 <= t < left implies bits[start + found + t] == #[trigger] piece(t) by {
                lemma_bit_in_byte(bytes, index as int, t);
            }
            lemma_gather_step(n, c, found as u64, left as u64, bits, start, piece);
        }
        n = n | (c << (found as u64));
    }
    proof {
        lemma_field_of_word(bits, start, w as nat, n);
    }
    n
}

/// The first byte of a write: the bits `s .. s + t` of the byte take the
/// low bits of `x`, the others stay.
proof fn lemma_set_first(b: u8, x: u8, s: u8, t: u8, q: u8)
    by (bit_vector)
    requires
        1 <= t,
        s + t <= 8,
        q < 8,
    ensures
        ((((b & !((((1u8 << t) - 1u8) as u8) << s)) | ((x << s) & ((((1u8 << t) - 1u8) as u8)
            << s))) >> q) & 1u8 == 1u8) == (if s <= q && q < s + t {
            (x >> ((q - s) as u8)) & 1u8 == 1u8
        } else {
            (b >> q) & 1u8 == 1u8
        }),
{
}

/// The last byte of a write: its low `l` bits take those of `x`, the others
/// stay.
proof fn lemma_set_last(b: u8, x: u8, l: u8, q: u8)
    by (bit_vector)
    requires
        1 <= l < 8,
        q < 8,
    ensures
        ((((b & !(((1u8 << l) - 1u8) as u8)) | (x & (((1u8 << l) - 1u8) as u8))) >> q) & 1u8
            == 1u8) == (if q < l {
            (x >> q) & 1u8 == 1u8
        } else {
            (b >> q) & 1u8 == 1u8
        }),
{
}

/// The low byte of `v >> used` holds bits `used ..` of `v`.
proof fn lemma_word_byte(v: u64, used: u64, q: u8)
    by (bit_vector)
    requires
        used + q < 64,
        q < 8,
    ensures
        ((((v >> used) as u8) >> q) & 1u8 == 1u8) == ((v >> ((used + q) as u64)) & 1u64 == 1u64),
        ((((v as u8) >> q) & 1u8 == 1u8) == ((v >> (q as u64)) & 1u64 == 1u64)),
{
}

/// Writing byte `i` carries the written field `width` bits further, when
/// the byte's bits `lo .. lo + width` are the next bits of `v` and its other
/// bits are kept.
proof fn lemma_write_byte(
    bytes: Seq<u8>,
    nb: u8,
    i: int,
    orig: Seq<bool>,
    start: int,
    used: nat,
    lo: int,
    width: nat,
    v: u64,
)
    requires
        0 <= i < bytes.len(),
        orig.len() == 8 * bytes.len(),
        bits_of(bytes) == with_field(orig, start, used, v),
        8 * i + lo == start + used,
        0 <= lo,
        lo + width <= 8,
        forall|q: int|
            0 <= q < 8 ==> (#[trigger] byte_bit(nb, q) == if lo <= q < lo + width {
                word_bit(v, used + q - lo)
            } else {
                byte_bit(bytes[i], q)
            }),
    ensures
        bits_of(bytes.update(i, nb)) == with_field(orig, start, used + width, v),
{
    let nbytes = bytes.update(i, nb);
    let target = with_field(orig, start, used + width, v);
    assert forall|k: int| 0 <= k < 8 * bytes.len() implies #[trigger] bits_of(nbytes)[k]
        == target[k] by {
        let bi = k / 8;
        let q = k % 8;
        vstd::arithmetic::div_mod::lemma_fundamental_div_mod(k, 8);
        assert(k == 8 * bi + q);
        lemma_bit_in_byte(nbytes, bi, q);
        lemma_bit_in_byte(bytes, bi, q);
        assert(bits_of(nbytes)[k] == byte_bit(nbytes[bi], q));
        assert(bits_of(bytes)[k] == byte_bit(bytes[bi], q));
        assert(bits_of(bytes)[k] == with_field(orig, start, used, v)[k]);
        if bi == i {
            assert(nbytes[bi] == nb);
            assert(byte_bit(nb, q) == if lo <= q < lo + width {
                word_bit(v, used + q - lo)
            } else {
                byte_bit(bytes[i], q)
            });
            if lo <= q < lo + width {
                assert(word_bit(v, used + q - lo) == word_bit(v, k - start));
            }
        } else {
            assert(nbytes[bi] == bytes[bi]);
        }
    }
    assert(bits_of(nbytes) =~= target);
}

/// Writes the low `bits_used` bits of `n` into the field under the cursor:
/// first the high bits of a partly covered first byte, then whole bytes,
/// then the low bits of a partly covered last byte. Every bit outside the
/// field keeps its value.
pub fn set_packedbit_scope_num(packedbit_scope: &mut PackedBitScope, n: u64)
    requires
        PackedBitScope::well_formed(old(packedbit_scope)@),
    ensures
        final(packedbit_scope)@ == (
            with_field(
                old(packedbit_scope)@.0,
                field_start(old(packedbit_scope)@),
                old(packedbit_scope)@.2,
                n,
            ),
            old(packedbit_scope)@.1,
            old(packedbit_scope)@.2,
        ),
        final(packedbit_scope).bytes@.len() == old(packedbit_scope).bytes@.len(),
{
    let ghost v = packedbit_scope@;
    let ghost orig = v.0;
    let ghost len = packedbit_scope.bytes@.len();
    let w = packedbit_scope.bits_used;
    proof {
        lemma_field_in_buffer(v.1, v.2, orig.len());
    }
    let bit_pos = packedbit_scope.pos * w;
    let ghost start = bit_pos as int;
    let mut index = bit_pos / 8;
    let shift = bit_pos % 8;
    let mut left: usize = w;
    let mut used: usize = 0;
    proof {
        assert(bits_of(packedbit_scope.bytes@) =~= with_field(orig, start, 0, n));
    }
    if shift != 0 {
        let take: usize = if 8 - shift < w { 8 - shift } else { w };
        proof {
            lemma_byte_one_shl(take as u8);
        }
        let mask: u8 = ((1u8 << (take as u8)) - 1) << (shift as u8);
        let b = packedbit_scope.bytes[index];
        let nb = (b & !mask) | ((#[verifier::truncate] (n as u8) << (shift as u8)) & mask);
        proof {
            assert forall|q: int| 0 <= q < 8 implies (byte_bit(nb, q) == if shift
                <= q < shift + take {
                word_bit(n, 0 + q - shift)
            } else {
                byte_bit(b, q)
            }) by {
                lemma_set_first(b, n as u8, shift as u8, take as u8, q as u8);
                if shift <= q < shift + take {
                    lemma_word_byte(n, 0, (q - shift) as u8);
                }
            }
            lemma_write_byte(
                packedbit_scope.bytes@,
                nb,
                index as int,
                orig,
                start,
                0,
                shift as int,
                take as nat,
                n,
            );
        }
        packedbit_scope.bytes.set(index, nb);
        used = take;
        left = w - take;
        index = index + 1;
    }
    while left >= 8
        invariant
            packedbit_scope.bytes@.len() == len,
            packedbit_scope.pos == v.1,
            packedbit_scope.bits_used == v.2,
            orig.len() == 8 * len,
            orig.len() <= usize::MAX,
            start + w <= orig.len(),
            1 <= w <= 64,
            w == v.2,
            used + left == w,
            bits_of(packedbit_scope.bytes@) == with_field(orig, start, used as nat, n),
            left > 0 ==> index * 8 == start + used,
        decreases left,
    {
        let nb = #[verifier::truncate] ((n >> (used as u64)) as u8);
        proof {
            assert forall|q: int| 0 <= q < 8 implies (byte_bit(nb, q) == if 0
                <= q < 0 + 8 {
                word_bit(n, used + q - 0)
            } else {
                byte_bit(packedbit_scope.bytes@[index as int], q)
            }) by {
                lemma_word_byte(n, used as u64, q as u8);
            }
            lemma_write_byte(
                packedbit_scope.bytes@,
                nb,
                index as int,
                orig,
                start,
                used as nat,
                0,
                8,
                n,
            );
        }
        packedbit_scope.bytes.set(index, nb);
        used = used + 8;
        left = left - 8;
        index = index + 1;
    }
    if left > 0 {
        proof {
            lemma_byte_one_shl(left as u8);
        }
        let m: u8 = (1u8 << (left as u8)) - 1;
        let b = packedbit_scope.bytes[index];
        let x = #[verifier::truncate] ((n >> (used as u64)) as u8);
        let nb = (b & !m) | (x & m);
        proof {
            assert forall|q: int| 0 <= q < 8 implies (byte_bit(nb, q) == if 0
                <= q < 0 + left {
                word_bit(n, used + q - 0)
            } else {
                byte_bit(b, q)
            }) by {
                lemma_set_last(b, x, left as u8, q as u8);
                if q < left {
                    lemma_word_byte(n, used as u64, q as u8);
                }
            }
            lemma_write_byte(
                packedbit_scope.bytes@,
                nb,
                index as int,
                orig,
                start,
                used as nat,
                0,
                left as nat,
                n,
            );
        }
        packedbit_scope.bytes.set(index, nb);
    }
}

impl Scope<usize> for PackedBitScope {
    open spec fn position(v: (Seq<bool>, nat, nat)) -> int {
        v.1 as int
    }

    open spec fn target(v: (Seq<bool>, nat, nat), index: usize) -> int {
        index as int
    }

    open spec fn moved(v: (Seq<bool>, nat, nat), p: int) -> (Seq<bool>, nat, nat) {
        (v.0, p as nat, v.2)
    }

    fn adjust(&mut self, pos: usize) {
        let max_pos = self.shape();
        self.pos = clamp_position(pos as i128, max_pos);
    }
}

impl Scope<isize> for PackedBitScope {
    open spec fn position(v: (Seq<bool>, nat, nat)) -> int {
        v.1 as int
    }

    open spec fn target(v: (Seq<bool>, nat, nat), offset: isize) -> int {
        v.1 + offset
    }

    open spec fn moved(v: (Seq<bool>, nat, nat), p: int) -> (Seq<bool>, nat, nat) {
        (v.0, p as nat, v.2)
    }

    fn adjust(&mut self, offset: isize) {
        let max_pos = self.shape();
        self.pos = clamp_position(self.pos as i128 + offset as i128, max_pos);
    }
}

/// The lowest bit of the field under the cursor.
pub fn get_packedbit_scope_bits(packedbit_scope: &PackedBitScope) -> (r: bool)
    requires
        PackedBitScope::well_formed(packedbit_scope@),
    ensures
        r == packedbit_scope@.0[field_start(packedbit_scope@)],
{
    proof {
        lemma_field_in_buffer(packedbit_scope@.1, packedbit_scope@.2, packedbit_scope@.0.len());
    }
    let bit_pos = packedbit_scope.pos * packedbit_scope.bits_used;
    let index = bit_pos / 8;
    let bit_index = (bit_pos % 8) as u32;
    proof {
        vstd::arithmetic::div_mod::lemma_fundamental_div_mod(bit_pos as int, 8);
        lemma_bit_in_byte(packedbit_scope.bytes@, index as int, bit_index as int);
        let b = packedbit_scope.bytes@[index as int];
        let t = bit_index as u8;
        assert(((b & (1u8 << t)) != 0u8) == ((b >> t) & 1u8 == 1u8)) by (bit_vector)
            requires
                t < 8,
        ;
    }
    (packedbit_scope.bytes[index] & (1u8 << (bit_index as u8))) != 0
}

/// Sets the lowest bit of the field under the cursor to `a`; every other bit
/// keeps its value.
pub fn set_packedbit_scope_bits(packedbit_scope: &mut PackedBitScope, a: bool)
    requires
        PackedBitScope::well_formed(old(packedbit_scope)@),
    ensures
        final(packedbit_scope)@ == (
            old(packedbit_scope)@.0.update(field_start(old(packedbit_scope)@), a),
            old(packedbit_scope)@.1,
            old(packedbit_scope)@.2,
        ),
        final(packedbit_scope).bytes@.len() == old(packedbit_scope).bytes@.len(),
{
    proof {
        lemma_field_in_buffer(packedbit_scope@.1, packedbit_scope@.2, packedbit_scope@.0.len());
    }
    let bit_pos = packedbit_scope.pos * packedbit_scope.bits_used;
    let index = bit_pos / 8;
    let bit_index = (bit_pos % 8) as u32;
    let loc_cleared = packedbit_scope.bytes[index] & !(1u8 << (bit_index as u8));
    let set_bit: u8 = (if a { 1u8 } else { 0u8 }) << (bit_index as u8);
    let loc_set = loc_cleared | set_bit;
    proof {
        vstd::arithmetic::div_mod::lemma_fundamental_div_mod(bit_pos as int, 8);
        assert(loc_set == with_bit(packedbit_scope.bytes@[index as int], bit_index as int, a));
        lemma_write_bit(packedbit_scope.bytes@, index as int, bit_index as int, a);
    }
    packedbit_scope.bytes.set(index, loc_set);
}

/// The accessor for the lowest bit of the field under a `PackedBitScope`.
pub struct PackedBitLens;

impl Accessor<PackedBitScope, bool> for PackedBitLens {
    open spec fn valid(&self, s: (Seq<bool>, nat, nat)) -> bool {
        PackedBitScope::well_formed(s)
    }

    open spec fn get_spec(&self, s: (Seq<bool>, nat, nat)) -> bool {
        s.0[field_start(s)]
    }

    open spec fn put_spec(&self, s: (Seq<bool>, nat, nat), a: bool) -> (Seq<bool>, nat, nat) {
        (s.0.update(field_start(s), a), s.1, s.2)
    }

    fn view(&self, s: &PackedBitScope) -> (r: bool) {
        get_packedbit_scope_bits(s)
    }

    fn set(&self, s: &mut PackedBitScope, a: bool) {
        set_packedbit_scope_bits(s, a)
    }
}

/// The accessor for the field under a `PackedBitScope`, as a number. A
/// write keeps the low `bits_used` bits of the number.
pub struct PackedNumLens;

impl Accessor<PackedBitScope, u64> for PackedNumLens {
    open spec fn valid(&self, s: (Seq<bool>, nat, nat)) -> bool {
        PackedBitScope::well_formed(s)
    }

    open spec fn get_spec(&self, s: (Seq<bool>, nat, nat)) -> u64 {
        field_at(s) as u64
    }

    open spec fn put_spec(&self, s: (Seq<bool>, nat, nat), a: u64) -> (Seq<bool>, nat, nat) {
        (with_field(s.0, field_start(s), s.2, a), s.1, s.2)
    }

    fn view(&self, s: &PackedBitScope) -> (r: u64) {
        get_packedbit_scope_num(s)
    }

    fn set(&self, s: &mut PackedBitScope, a: u64) {
        set_packedbit_scope_num(s, a)
    }
}

/// Reading the field under the cursor after writing a value that fits in
/// `bits_used` bits gives that value.
pub proof fn lemma_packed_num_round_trip(s: (Seq<bool>, nat, nat), a: u64)
    requires
        (a as nat) < pow2(s.2),
    ensures
        set_view_law::<PackedBitScope, u64, PackedNumLens>(PackedNumLens, s, a),
{
    if PackedBitScope::well_formed(s) {
        lemma_field_in_buffer(s.1, s.2, s.0.len());
        lemma_with_field_read_back(s.0, field_start(s), s.2, a);
    }
}

/// Writing back the value read from the field under the cursor leaves the
/// buffer as it was.
pub proof fn lemma_packed_num_view_set(s: (Seq<bool>, nat, nat))
    ensures
        view_set_law::<PackedBitScope, u64, PackedNumLens>(PackedNumLens, s),
{
    if PackedBitScope::well_formed(s) {
        lemma_with_field_of_own_value(s.0, field_start(s), s.2);
    }
}

/// Writing a field leaves every bit outside the field as it was.
pub proof fn lemma_packed_num_keeps_other_bits(s: (Seq<bool>, nat, nat), a: u64, k: int)
    requires
        PackedBitScope::well_formed(s),
        0 <= k < s.0.len(),
        !(field_start(s) <= k < field_start(s) + s.2),
    ensures
        PackedNumLens.put_spec(s, a).0.len() == s.0.len(),
        PackedNumLens.put_spec(s, a).0[k] == s.0[k],
{
}

/// Reading the lowest bit of the field after writing it gives the value
/// written, and writing back what was read changes nothing.
pub proof fn lemma_packed_bit_round_trip(s: (Seq<bool>, nat, nat), a: bool)
    ensures
        set_view_law::<PackedBitScope, bool, PackedBitLens>(PackedBitLens, s, a),
        view_set_law::<PackedBitScope, bool, PackedBitLens>(PackedBitLens, s),
{
    if PackedBitScope::well_formed(s) {
        lemma_field_in_buffer(s.1, s.2, s.0.len());
        assert(s.0.update(field_start(s), s.0[field_start(s)]) =~= s.0);
    }
}

/// The two accessors may run on every well-formed `PackedBitScope`, and
/// their writes keep the cursor well-formed.
pub proof fn lemma_packed_lenses_fit()
    ensures
        fits::<PackedBitScope, bool, PackedBitLens>(PackedBitLens),
        fits::<PackedBitScope, u64, PackedNumLens>(PackedNumLens),
{
    assert forall|v: (Seq<bool>, nat, nat), a: bool| PackedBitScope::well_formed(v) implies {
        let p = #[trigger] PackedBitLens.put_spec(v, a);
        PackedBitScope::well_formed(p) && PackedBitScope::shape_of(p) == PackedBitScope::shape_of(v)
    } by {
        lemma_field_in_buffer(v.1, v.2, v.0.len());
    }
}

} // verus!
