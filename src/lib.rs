//! Cursors over linear storage (plain elements, single bits, packed bit
//! fields), accessors that read and write the value under a cursor, and a
//! traversal engine that applies index-keyed updates in position order.

pub mod lens;
pub mod shape;
pub mod scope;
pub mod bits;
pub mod merge;
pub mod indices;
pub mod vec_scope;
pub mod bit_vec_scope;
pub mod bit_word_scope;
pub mod packed_bit_scope;
