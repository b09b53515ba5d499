//! The forward transform of PRESENT24: ten rounds of key mixing, a nibble
//! substitution layer and a bit permutation layer, then a final key mixing.

use crate::Message;
use crate::RoundKeys;
use crate::rk_view;
use vstd::prelude::*;

verus! {

/// The encryption S-box on one nibble (the low four bits of `n`).
pub open spec fn sbox_enc_nibble(n: u8) -> u8 {
    if n == 0x0 { 0x0c } else if n == 0x1 { 0x05 } else if n == 0x2 { 0x06 }
    else if n == 0x3 { 0x0b } else if n == 0x4 { 0x09 } else if n == 0x5 { 0x00 }
    else if n == 0x6 { 0x0a } else if n == 0x7 { 0x0d } else if n == 0x8 { 0x03 }
    else if n == 0x9 { 0x0e } else if n == 0xa { 0x0f } else if n == 0xb { 0x08 }
    else if n == 0xc { 0x04 } else if n == 0xd { 0x07 } else if n == 0xe { 0x01 }
    else { 0x02 }
}

/// The encryption S-box applied to both nibbles of a byte.
pub open spec fn sbox_enc_byte(b: u8) -> u8 {
    (sbox_enc_nibble((b & 0xf0) >> 4) << 4) | sbox_enc_nibble(b & 0x0f)
}

/// First output byte of the encryption bit permutation.
pub open spec fn pbox_enc0(m0: u8, m1: u8, m2: u8) -> u8 {
    (m0 & 0x80)        | ((m0 & 0x08) << 3) |
    ((m1 & 0x80) >> 2) | ((m1 & 0x08) << 1) |
    ((m2 & 0x80) >> 4) | ((m2 & 0x08) >> 1) |
    ((m0 & 0x40) >> 5) | ((m0 & 0x04) >> 2)
}

/// Second output byte of the encryption bit permutation.
pub open spec fn pbox_enc1(m0: u8, m1: u8, m2: u8) -> u8 {
    ((m1 & 0x40) << 1) | ((m1 & 0x04) << 4) |
    ((m2 & 0x40) >> 1) | ((m2 & 0x04) << 2) |
    ((m0 & 0x20) >> 2) | ((m0 & 0x02) << 1) |
    ((m1 & 0x20) >> 4) | ((m1 & 0x02) >> 1)
}

/// Third output byte of the encryption bit permutation.
pub open spec fn pbox_enc2(m0: u8, m1: u8, m2: u8) -> u8 {
    ((m2 & 0x20) << 2) | ((m2 & 0x02) << 5) |
    ((m0 & 0x10) << 1) | ((m0 & 0x01) << 4) |
    ((m1 & 0x10) >> 1) | ((m1 & 0x01) << 2) |
    ((m2 & 0x10) >> 3) | (m2 & 0x01)
}

/// Byte-wise xor of a block with a round key.
pub open spec fn xor3(m: Seq<u8>, k: Seq<u8>) -> Seq<u8> {
    seq![m[0] ^ k[0], m[1] ^ k[1], m[2] ^ k[2]]
}

/// The substitution layer on a whole block.
pub open spec fn sub_layer_enc(m: Seq<u8>) -> Seq<u8> {
    seq![sbox_enc_byte(m[0]), sbox_enc_byte(m[1]), sbox_enc_byte(m[2])]
}

/// The permutation layer on a whole block.
pub open spec fn perm_layer_enc(m: Seq<u8>) -> Seq<u8> {
    seq![
        pbox_enc0(m[0], m[1], m[2]),
        pbox_enc1(m[0], m[1], m[2]),
        pbox_enc2(m[0], m[1], m[2]),
    ]
}

/// One full encryption round under round key `k`.
pub open spec fn enc_round(m: Seq<u8>, k: Seq<u8>) -> Seq<u8> {
    perm_layer_enc(sub_layer_enc(xor3(m, k)))
}

/// The first `n` encryption rounds under round keys `rk[0], ..., rk[n-1]`.
pub open spec fn enc_rounds(m: Seq<u8>, rk: Seq<Seq<u8>>, n: nat) -> Seq<u8>
    decreases n,
{
    if n == 0 {
        m
    } else {
        enc_round(enc_rounds(m, rk, (n - 1) as nat), rk[n - 1])
    }
}

/// The whole forward transform: ten rounds, then the final key mixing.
pub open spec fn encrypt_spec(m: Seq<u8>, rk: Seq<Seq<u8>>) -> Seq<u8> {
    xor3(enc_rounds(m, rk, 10), rk[10])
}

/// The encryption S-box on one byte, high and low nibble independently.
pub fn sbox_encrypt(byte: u8) -> (r: u8)
    ensures
        r == sbox_enc_byte(byte),
{
    let hi: u8 = sbox_nibble_enc((byte & 0xf0) >> 4);
    let lo: u8 = sbox_nibble_enc(byte & 0x0f);
    (hi << 4) | lo
}

fn sbox_nibble_enc(n: u8) -> (r: u8)
    ensures
        r == sbox_enc_nibble(n),
{
    if n == 0x0 { 0x0c } else if n == 0x1 { 0x05 } else if n == 0x2 { 0x06 }
    else if n == 0x3 { 0x0b } else if n == 0x4 { 0x09 } else if n == 0x5 { 0x00 }
    else if n == 0x6 { 0x0a } else if n == 0x7 { 0x0d } else if n == 0x8 { 0x03 }
    else if n == 0x9 { 0x0e } else if n == 0xa { 0x0f } else if n == 0xb { 0x08 }
    else if n == 0xc { 0x04 } else if n == 0xd { 0x07 } else if n == 0xe { 0x01 }
    else { 0x02 }
}

fn pbox_encrypt(m: &Message) -> (r: Message)
    ensures
        r@ == perm_layer_enc(m@),
{
    let m0: u8 = m[0];
    let m1: u8 = m[1];
    let m2: u8 = m[2];
    let r: Message = [
        (m0 & 0x80)        | ((m0 & 0x08) << 3) |
        ((m1 & 0x80) >> 2) | ((m1 & 0x08) << 1) |
        ((m2 & 0x80) >> 4) | ((m2 & 0x08) >> 1) |
        ((m0 & 0x40) >> 5) | ((m0 & 0x04) >> 2),

        ((m1 & 0x40) << 1) | ((m1 & 0x04) << 4) |
        ((m2 & 0x40) >> 1) | ((m2 & 0x04) << 2) |
        ((m0 & 0x20) >> 2) | ((m0 & 0x02) << 1) |
        ((m1 & 0x20) >> 4) | ((m1 & 0x02) >> 1),

        ((m2 & 0x20) << 2) | ((m2 & 0x02) << 5) |
        ((m0 & 0x10) << 1) | ((m0 & 0x01) << 4) |
        ((m1 & 0x10) >> 1) | ((m1 & 0x01) << 2) |
        ((m2 & 0x10) >> 3) | (m2 & 0x01),
    ];
    proof {
        assert(r@ =~= perm_layer_enc(m@));
    }
    r
}

/// Encrypts one block under the given round keys.
#[verifier::loop_isolation(false)]
pub fn present24_encrypt(m: Message, rk: RoundKeys) -> (r: Message)
    ensures
        r@ == encrypt_spec(m@, rk_view(rk)),
{
    let mut s: Message = m;
    for i in 0usize..10
        invariant
            s@ == enc_rounds(m@, rk_view(rk), i as nat),
    {
        let k: [u8; 3] = rk[i];
        let ghost s_prev: Seq<u8> = s@;
        let x0: u8 = s[0] ^ k[0];
        let x1: u8 = s[1] ^ k[1];
        let x2: u8 = s[2] ^ k[2];
        let y0: u8 = sbox_encrypt(x0);
        let y1: u8 = sbox_encrypt(x1);
        let y2: u8 = sbox_encrypt(x2);
        let y: Message = [y0, y1, y2];
        s = pbox_encrypt(&y);
        proof {
            assert(k@ =~= rk_view(rk)[i as int]);
            assert(y@ =~= sub_layer_enc(xor3(s_prev, rk_view(rk)[i as int])));
            assert(s@ == enc_round(s_prev, rk_view(rk)[i as int]));
        }
    }
    let r: Message = [s[0] ^ rk[10][0], s[1] ^ rk[10][1], s[2] ^ rk[10][2]];
    proof {
        assert(rk[10]@ =~= rk_view(rk)[10]);
        assert(r@ =~= xor3(s@, rk_view(rk)[10]));
    }
    r
}

} // verus!
