//! A meet-in-the-middle key-recovery attack against the toy cipher
//! PRESENT24 used in a two-key double-encryption construction.
//!
//! The library holds the verified core: the cipher itself (forward and
//! inverse transforms with their key schedule), the dictionary builder,
//! the radix sorter, the collision scanner and the verifier. Thread-pool
//! orchestration and printing live outside the library.

use vstd::prelude::*;

pub mod attack;
pub mod decrypt;
pub mod encrypt;
pub mod sort;
pub mod utils;

verus! {

/// A 24-bit cipher block, as three bytes, most significant first.
pub type Message = [u8; 3];

/// A 24-bit cipher key, as three bytes, most significant first.
pub type Key = [u8; 3];

/// The eleven 24-bit round keys derived from one `Key`.
pub type RoundKeys = [[u8; 3]; 11];

/// The 80-bit key-schedule shift register (top 24 bits hold the key).
pub type Register = [u8; 10];

/// The round keys as a mathematical sequence of eleven 3-byte sequences.
pub open spec fn rk_view(rk: RoundKeys) -> Seq<Seq<u8>> {
    Seq::new(11, |i: int| rk@[i]@)
}

} // verus!
