use vstd::prelude::*;

use crate::bits::{byte_bit, lemma_with_bit, with_bit};
use crate::lens::{set_view_law, view_set_law, Accessor};
use crate::scope::{clamp_position, fits, Scope};
use crate::shape::Shape;

verus! {

/// A cursor over the low `bits_used` bits of each word of a vector:
/// position `k` is bit `k % bits_used` of word `k / bits_used`. Its model is
/// the words, the position and `bits_used`.
pub struct BitWordScope {
    pub vec: Vec<u8>,
    pub bits_used: usize,
    pub pos: usize,
}

impl View for BitWordScope {
    type V = (Seq<u8>, nat, nat);

    open spec fn view(&self) -> (Seq<u8>, nat, nat) {
        (self.vec@, self.pos as nat, self.bits_used as nat)
    }
}

/// The word that holds position `v.1`.
pub open spec fn word_index(v: (Seq<u8>, nat, nat)) -> int {
    (v.1 / v.2) as int
}

/// The bit of that word that position `v.1` names.
pub open spec fn bit_index(v: (Seq<u8>, nat, nat)) -> int {
    (v.1 % v.2) as int
}

proof fn lemma_word_in_vec(v: (Seq<u8>, nat, nat))
    requires
        BitWordScope::well_formed(v),
    ensures
        0 <= word_index(v) < v.0.len(),
        0 <= bit_index(v) < v.2,
{
    assert((v.1 / v.2) < v.0.len()) by (nonlinear_arith)
        requires
            v.1 < v.0.len() * v.2,
            v.2 > 0,
    ;
}

impl Shape for BitWordScope {
    open spec fn well_formed(v: (Seq<u8>, nat, nat)) -> bool {
        &&& 1 <= v.2 <= 8
        &&& v.0.len() * v.2 <= usize::MAX
        &&& v.1 < v.0.len() * v.2
    }

    open spec fn shape_of(v: (Seq<u8>, nat, nat)) -> nat {
        v.0.len() * v.2
    }

    fn shape(&self) -> (r: usize) {
        self.vec.len() * self.bits_used
    }
}

impl BitWordScope {
    /// A cursor at position 0. `None` when the vector is empty, or when
    /// `bits_used` is 0 or more than the 8 bits of a word.
    pub fn with_words(vec: Vec<u8>, bits_used: usize) -> (r: Option<BitWordScope>)
        requires
            vec.len() <= usize::MAX / 8,
        ensures
            r is None <==> (vec@.len() == 0 || bits_used == 0 || bits_used > 8),
            r matches Some(s) ==> {
                &&& s.vec == vec
                &&& s.bits_used == bits_used
                &&& s.pos == 0
                &&& BitWordScope::well_formed(s@)
            },
    {
        if vec.len() > 0 && bits_used >= 1 && bits_used <= 8 {
            let s = BitWordScope { vec, bits_used, pos: 0 };
            proof {
                assert(s@.0.len() * s@.2 <= s@.0.len() * 8) by (nonlinear_arith)
                    requires
                        s@.2 <= 8,
                ;
                assert(s@.0.len() * s@.2 >= 1) by (nonlinear_arith)
                    requires
                        s@.2 >= 1,
                        s@.0.len() >= 1,
                ;
            }
            Some(s)
        } else {
            None
        }
    }

    /// The accessor for the bit under the cursor.
    pub fn bit_lens() -> (r: BitWordBitLens) {
        BitWordBitLens
    }

    /// The accessor for the whole word that holds the cursor's position.
    pub fn lens() -> (r: BitWordLens) {
        BitWordLens
    }
}

impl Scope<usize> for BitWordScope {
    open spec fn position(v: (Seq<u8>, nat, nat)) -> int {
        v.1 as int
    }

    open spec fn target(v: (Seq<u8>, nat, nat), index: usize) -> int {
        index as int
    }

    open spec fn moved(v: (Seq<u8>, nat, nat), p: int) -> (Seq<u8>, nat, nat) {
        (v.0, p as nat, v.2)
    }

    fn adjust(&mut self, pos: usize) {
        let shape = self.shape();
        self.pos = clamp_position(pos as i128, shape);
    }
}

impl Scope<isize> for BitWordScope {
    open spec fn position(v: (Seq<u8>, nat, nat)) -> int {
        v.1 as int
    }

    open spec fn target(v: (Seq<u8>, nat, nat), offset: isize) -> int {
        v.1 + offset
    }

    open spec fn moved(v: (Seq<u8>, nat, nat), p: int) -> (Seq<u8>, nat, nat) {
        (v.0, p as nat, v.2)
    }

    fn adjust(&mut self, offset: isize) {
        let shape = self.shape();
        self.pos = clamp_position(self.pos as i128 + offset as i128, shape);
    }
}

/// The bit under the cursor.
pub fn get_bitword_scope_bits(bitword_scope: &BitWordScope) -> (r: bool)
    requires
        BitWordScope::well_formed(bitword_scope@),
    ensures
        r == byte_bit(bitword_scope@.0[word_index(bitword_scope@)], bit_index(bitword_scope@)),
{
    proof {
        lemma_word_in_vec(bitword_scope@);
    }
    let index = bitword_scope.pos / bitword_scope.bits_used;
    let bit_index = (bitword_scope.pos % bitword_scope.bits_used) as u32;
    proof {
        let b = bitword_scope.vec@[index as int];
        let t = bit_index as u8;
        assert(((b & (1u8 << t)) != 0u8) == ((b >> t) & 1u8 == 1u8)) by (bit_vector)
            requires
                t < 8,
        ;
    }
    (bitword_scope.vec[index] & (1u8 << (bit_index as u8))) != 0
}

/// Sets the bit under the cursor to `a`; every other bit keeps its value.
pub fn set_bitword_scope_bits(bitword_scope: &mut BitWordScope, a: bool)
    requires
        BitWordScope::well_formed(old(bitword_scope)@),
    ensures
        final(bitword_scope)@ == (
            old(bitword_scope)@.0.update(
                word_index(old(bitword_scope)@),
                with_bit(
                    old(bitword_scope)@.0[word_index(old(bitword_scope)@)],
                    bit_index(old(bitword_scope)@),
                    a,
                ),
            ),
            old(bitword_scope)@.1,
            old(bitword_scope)@.2,
        ),
{
    proof {
        lemma_word_in_vec(bitword_scope@);
    }
    let index = bitword_scope.pos / bitword_scope.bits_used;
    let bit_index = (bitword_scope.pos % bitword_scope.bits_used) as u32;
    let loc_cleared = bitword_scope.vec[index] & !(1u8 << (bit_index as u8));
    let set_bit: u8 = (if a { 1u8 } else { 0u8 }) << (bit_index as u8);
    let loc_set = loc_cleared | set_bit;
    bitword_scope.vec.set(index, loc_set);
}

/// The word that holds the cursor's position.
pub fn get_bitword_scope(bitword_scope: &BitWordScope) -> (r: u8)
    requires
        BitWordScope::well_formed(bitword_scope@),
    ensures
        r == bitword_scope@.0[word_index(bitword_scope@)],
{
    proof {
        lemma_word_in_vec(bitword_scope@);
    }
    let index = bitword_scope.pos / bitword_scope.bits_used;
    bitword_scope.vec[index]
}

/// Replaces the word that holds the cursor's position.
pub fn set_bitword_scope(bitword_scope: &mut BitWordScope, a: u8)
    requires
        BitWordScope::well_formed(old(bitword_scope)@),
    ensures
        final(bitword_scope)@ == (
            old(bitword_scope)@.0.update(word_index(old(bitword_scope)@), a),
            old(bitword_scope)@.1,
            old(bitword_scope)@.2,
        ),
{
    proof {
        lemma_word_in_vec(bitword_scope@);
    }
    let index = bitword_scope.pos / bitword_scope.bits_used;
    bitword_scope.vec.set(index, a);
}

/// The accessor for the bit under a `BitWordScope`.
pub struct BitWordBitLens;

impl Accessor<BitWordScope, bool> for BitWordBitLens {
    open spec fn valid(&self, s: (Seq<u8>, nat, nat)) -> bool {
        BitWordScope::well_formed(s)
    }

    open spec fn get_spec(&self, s: (Seq<u8>, nat, nat)) -> bool {
        byte_bit(s.0[word_index(s)], bit_index(s))
    }

    open spec fn put_spec(&self, s: (Seq<u8>, nat, nat), a: bool) -> (Seq<u8>, nat, nat) {
        (s.0.update(word_index(s), with_bit(s.0[word_index(s)], bit_index(s), a)), s.1, s.2)
    }

    fn view(&self, s: &BitWordScope) -> (r: bool) {
        get_bitword_scope_bits(s)
    }

    fn set(&self, s: &mut BitWordScope, a: bool) {
        set_bitword_scope_bits(s, a)
    }
}

/// The accessor for the word that holds the position of a `BitWordScope`.
pub struct BitWordLens;

impl Accessor<BitWordScope, u8> for BitWordLens {
    open spec fn valid(&self, s: (Seq<u8>, nat, nat)) -> bool {
        BitWordScope::well_formed(s)
    }

    open spec fn get_spec(&self, s: (Seq<u8>, nat, nat)) -> u8 {
        s.0[word_index(s)]
    }

    open spec fn put_spec(&self, s: (Seq<u8>, nat, nat), a: u8) -> (Seq<u8>, nat, nat) {
        (s.0.update(word_index(s), a), s.1, s.2)
    }

    fn view(&self, s: &BitWordScope) -> (r: u8) {
        get_bitword_scope(s)
    }

    fn set(&self, s: &mut BitWordScope, a: u8) {
        set_bitword_scope(s, a)
    }
}

/// Reading the bit under the cursor after writing it gives the value
/// written.
pub proof fn lemma_bit_word_bit_round_trip(s: (Seq<u8>, nat, nat), a: bool)
    ensures
        set_view_law::<BitWordScope, bool, BitWordBitLens>(BitWordBitLens, s, a),
{
    if BitWordScope::well_formed(s) {
        lemma_word_in_vec(s);
        let b = s.0[word_index(s)];
        let t = bit_index(s) as u8;
        lemma_with_bit(b, t, a, t);
    }
}

/// Reading the word after writing it gives the value written, and writing
/// back what was read changes nothing.
pub proof fn lemma_bit_word_round_trip(s: (Seq<u8>, nat, nat), a: u8)
    ensures
        set_view_law::<BitWordScope, u8, BitWordLens>(BitWordLens, s, a),
        view_set_law::<BitWordScope, u8, BitWordLens>(BitWordLens, s),
{
    if BitWordScope::well_formed(s) {
        lemma_word_in_vec(s);
        assert(s.0.update(word_index(s), s.0[word_index(s)]) =~= s.0);
    }
}

/// The two accessors may run on every well-formed `BitWordScope`, and their
/// writes keep the cursor well-formed.
pub proof fn lemma_bit_word_lenses_fit()
    ensures
        fits::<BitWordScope, bool, BitWordBitLens>(BitWordBitLens),
        fits::<BitWordScope, u8, BitWordLens>(BitWordLens),
{
    assert forall|v: (Seq<u8>, nat, nat), a: bool| BitWordScope::well_formed(v) implies {
        let p = #[trigger] BitWordBitLens.put_spec(v, a);
        BitWordScope::well_formed(p) && BitWordScope::shape_of(p) == BitWordScope::shape_of(v)
    } by {
        lemma_word_in_vec(v);
    }
    assert forall|v: (Seq<u8>, nat, nat), a: u8| BitWordScope::well_formed(v) implies {
        let p = #[trigger] BitWordLens.put_spec(v, a);
        BitWordScope::well_formed(p) && BitWordScope::shape_of(p) == BitWordScope::shape_of(v)
    } by {
        lemma_word_in_vec(v);
    }
}

} // verus!
