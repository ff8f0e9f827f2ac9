use vstd::prelude::*;

use crate::bits::{bits_of, byte_bit, lemma_bit_in_byte, lemma_write_bit, with_bit};
use crate::lens::{set_view_law, view_set_law, Accessor};
use crate::scope::{clamp_position, fits, Scope};
use crate::shape::Shape;

verus! {

/// A cursor over the bits of a byte buffer: position `k` is bit `k % 8` of
/// byte `k / 8`. Its model is the buffer's bits and the position.
pub struct BitVecScope {
    pub bytes: Vec<u8>,
    pub pos: usize,
}

impl View for BitVecScope {
    type V = (Seq<bool>, nat);

    open spec fn view(&self) -> (Seq<bool>, nat) {
        (bits_of(self.bytes@), self.pos as nat)
    }
}

impl Shape for BitVecScope {
    open spec fn well_formed(v: (Seq<bool>, nat)) -> bool {
        &&& v.0.len() <= usize::MAX
        &&& v.1 < v.0.len()
    }

    open spec fn shape_of(v: (Seq<bool>, nat)) -> nat {
        v.0.len()
    }

    fn shape(&self) -> (r: usize) {
        self.bytes.len() * 8
    }
}

impl BitVecScope {
    /// A cursor at bit 0; `None` when the buffer is empty.
    pub fn with_bytes(bytes: Vec<u8>) -> (r: Option<BitVecScope>)
        requires
            bytes.len() <= usize::MAX / 8,
        ensures
            r is None <==> bytes@.len() == 0,
            r matches Some(s) ==> s.bytes == bytes && s.pos == 0 && BitVecScope::well_formed(s@),
    {
        if bytes.len() > 0 {
            Some(BitVecScope { bytes, pos: 0 })
        } else {
            None
        }
    }

    /// The accessor for the bit under the cursor.
    pub fn lens() -> (r: BitVecLens) {
        BitVecLens
    }

    /// The byte that holds the bit under the cursor.
    pub fn byte_index(&self) -> (r: usize)
        ensures
            r == self.pos / 8,
    {
        self.pos / 8
    }

    /// The value of the byte that holds the bit under the cursor.
    pub fn current_byte(&self) -> (r: u8)
        requires
            (self.pos / 8) < self.bytes.len(),
        ensures
            r == self.bytes@[(self.pos / 8) as int],
    {
        self.bytes[self.byte_index()]
    }
}

impl Scope<usize> for BitVecScope {
    open spec fn position(v: (Seq<bool>, nat)) -> int {
        v.1 as int
    }

    open spec fn target(v: (Seq<bool>, nat), index: usize) -> int {
        index as int
    }

    open spec fn moved(v: (Seq<bool>, nat), p: int) -> (Seq<bool>, nat) {
        (v.0, p as nat)
    }

    fn adjust(&mut self, pos: usize) {
        self.pos = clamp_position(pos as i128, self.bytes.len() * 8);
    }
}

impl Scope<isize> for BitVecScope {
    open spec fn position(v: (Seq<bool>, nat)) -> int {
        v.1 as int
    }

    open spec fn target(v: (Seq<bool>, nat), offset: isize) -> int {
        v.1 + offset
    }

    open spec fn moved(v: (Seq<bool>, nat), p: int) -> (Seq<bool>, nat) {
        (v.0, p as nat)
    }

    fn adjust(&mut self, offset: isize) {
        self.pos = clamp_position(self.pos as i128 + offset as i128, 8 * self.bytes.len());
    }
}

/// The bit under the cursor.
pub fn get_vec_scope(bit_vec_scope: &BitVecScope) -> (r: bool)
    requires
        BitVecScope::well_formed(bit_vec_scope@),
    ensures
        r == bit_vec_scope@.0[bit_vec_scope@.1 as int],
{
    let bit_index = bit_vec_scope.pos % 8;
    proof {
        vstd::arithmetic::div_mod::lemma_fundamental_div_mod(bit_vec_scope.pos as int, 8);
        lemma_bit_in_byte(bit_vec_scope.bytes@, (bit_vec_scope.pos / 8) as int, bit_index as int);
        assert(((bit_vec_scope.bytes@[(bit_vec_scope.pos / 8) as int] & (1u8 << (bit_index as u8))) != 0u8)
            == byte_bit(bit_vec_scope.bytes@[(bit_vec_scope.pos / 8) as int], bit_index as int)) by {
            let b = bit_vec_scope.bytes@[(bit_vec_scope.pos / 8) as int];
            let t = bit_index as u8;
            assert(((b & (1u8 << t)) != 0u8) == ((b >> t) & 1u8 == 1u8)) by (bit_vector)
                requires
                    t < 8,
            ;
        }
    }
    (bit_vec_scope.current_byte() & (1u8 << (bit_index as u8))) != 0
}

/// Sets the bit under the cursor to `a`; every other bit keeps its value.
pub fn set_vec_scope(bit_vec_scope: &mut BitVecScope, a: bool)
    requires
        BitVecScope::well_formed(old(bit_vec_scope)@),
    ensures
        final(bit_vec_scope)@ == (
            old(bit_vec_scope)@.0.update(old(bit_vec_scope)@.1 as int, a),
            old(bit_vec_scope)@.1,
        ),
        final(bit_vec_scope).bytes@.len() == old(bit_vec_scope).bytes@.len(),
{
    let bit_index = bit_vec_scope.pos % 8;
    let index = bit_vec_scope.byte_index();
    let bit: u8 = if a { 1 } else { 0 };
    let nb = (bit_vec_scope.current_byte() & !(1u8 << (bit_index as u8))) | (bit << (bit_index as u8));
    proof {
        vstd::arithmetic::div_mod::lemma_fundamental_div_mod(bit_vec_scope.pos as int, 8);
        assert(nb == with_bit(bit_vec_scope.bytes@[index as int], bit_index as int, a));
        lemma_write_bit(bit_vec_scope.bytes@, index as int, bit_index as int, a);
    }
    bit_vec_scope.bytes.set(index, nb);
}

/// The accessor for the bit under a `BitVecScope`.
pub struct BitVecLens;

impl Accessor<BitVecScope, bool> for BitVecLens {
    open spec fn valid(&self, s: (Seq<bool>, nat)) -> bool {
        BitVecScope::well_formed(s)
    }

    open spec fn get_spec(&self, s: (Seq<bool>, nat)) -> bool {
        s.0[s.1 as int]
    }

    open spec fn put_spec(&self, s: (Seq<bool>, nat), a: bool) -> (Seq<bool>, nat) {
        (s.0.update(s.1 as int, a), s.1)
    }

    fn view(&self, s: &BitVecScope) -> (r: bool) {
        get_vec_scope(s)
    }

    fn set(&self, s: &mut BitVecScope, a: bool) {
        set_vec_scope(s, a)
    }
}

/// Reading the bit under the cursor after writing it gives the value
/// written, and writing back what was read changes nothing.
pub proof fn lemma_bit_vec_lens_round_trip(s: (Seq<bool>, nat), a: bool)
    ensures
        set_view_law::<BitVecScope, bool, BitVecLens>(BitVecLens, s, a),
        view_set_law::<BitVecScope, bool, BitVecLens>(BitVecLens, s),
{
    assert(s.1 < s.0.len() ==> s.0.update(s.1 as int, s.0[s.1 as int]) =~= s.0);
}

/// The bit accessor may run on every well-formed `BitVecScope`, and its
/// writes keep the cursor well-formed.
pub proof fn lemma_bit_vec_lens_fits()
    ensures
        fits::<BitVecScope, bool, BitVecLens>(BitVecLens),
{
}

} // verus!
