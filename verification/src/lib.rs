//! A dense bit vector for fixed-point iterations: bits are packed into 32-bit
//! words, the words are stored in lanes of four, and a union reports whether
//! it changed anything.
//!
//! `word` holds the facts about single words, `lane` the unit of four words,
//! `bits` the sequences of bits that contracts speak of, `layout` how bits
//! lie in the stored words, and `bitvec` the vector itself.

pub mod word;
pub mod lane;
pub mod bits;
pub mod layout;
pub mod bitvec;
