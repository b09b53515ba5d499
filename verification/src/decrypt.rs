//! The inverse transform of PRESENT24, and the proof that it undoes the
//! forward transform round by round.

use crate::Message;
use crate::RoundKeys;
use crate::encrypt::enc_round;
use crate::encrypt::enc_rounds;
use crate::encrypt::encrypt_spec;
use crate::encrypt::pbox_enc0;
use crate::encrypt::pbox_enc1;
use crate::encrypt::pbox_enc2;
use crate::encrypt::perm_layer_enc;
use crate::encrypt::sbox_enc_byte;
use crate::encrypt::sbox_enc_nibble;
use crate::encrypt::sub_layer_enc;
use crate::encrypt::xor3;
use crate::rk_view;
use vstd::prelude::*;

verus! {

/// The decryption S-box on one nibble: the inverse of the encryption S-box.
pub open spec fn sbox_dec_nibble(n: u8) -> u8 {
    if n == 0x0 { 0x05 } else if n == 0x1 { 0x0e } else if n == 0x2 { 0x0f }
    else if n == 0x3 { 0x08 } else if n == 0x4 { 0x0c } else if n == 0x5 { 0x01 }
    else if n == 0x6 { 0x02 } else if n == 0x7 { 0x0d } else if n == 0x8 { 0x0b }
    else if n == 0x9 { 0x04 } else if n == 0xa { 0x06 } else if n == 0xb { 0x03 }
    else if n == 0xc { 0x00 } else if n == 0xd { 0x07 } else if n == 0xe { 0x09 }
    else { 0x0a }
}

/// The decryption S-box applied to both nibbles of a byte.
pub open spec fn sbox_dec_byte(b: u8) -> u8 {
    (sbox_dec_nibble((b & 0xf0) >> 4) << 4) | sbox_dec_nibble(b & 0x0f)
}

/// First output byte of the decryption bit permutation.
pub open spec fn pbox_dec0(m0: u8, m1: u8, m2: u8) -> u8 {
    (m0 & 0x80)        | ((m0 & 0x02) << 5) |
    ((m1 & 0x08) << 2) | ((m2 & 0x20) >> 1) |
    ((m0 & 0x40) >> 3) | ((m0 & 0x01) << 2) |
    ((m1 & 0x04) >> 1) | ((m2 & 0x10) >> 4)
}

/// Second output byte of the decryption bit permutation.
pub open spec fn pbox_dec1(m0: u8, m1: u8, m2: u8) -> u8 {
    ((m0 & 0x20) << 2) | ((m1 & 0x80) >> 1) |
    ((m1 & 0x02) << 4) | ((m2 & 0x08) << 1) |
    ((m0 & 0x10) >> 1) | ((m1 & 0x40) >> 4) |
    ((m1 & 0x01) << 1) | ((m2 & 0x04) >> 2)
}

/// Third output byte of the decryption bit permutation.
pub open spec fn pbox_dec2(m0: u8, m1: u8, m2: u8) -> u8 {
    ((m0 & 0x08) << 4) | ((m1 & 0x20) << 1) |
    ((m2 & 0x80) >> 2) | ((m2 & 0x02) << 3) |
    ((m0 & 0x04) << 1) | ((m1 & 0x10) >> 2) |
    ((m2 & 0x40) >> 5) | (m2 & 0x01)
}

/// The inverse substitution layer on a whole block.
pub open spec fn sub_layer_dec(m: Seq<u8>) -> Seq<u8> {
    seq![sbox_dec_byte(m[0]), sbox_dec_byte(m[1]), sbox_dec_byte(m[2])]
}

/// The inverse permutation layer on a whole block.
pub open spec fn perm_layer_dec(m: Seq<u8>) -> Seq<u8> {
    seq![
        pbox_dec0(m[0], m[1], m[2]),
        pbox_dec1(m[0], m[1], m[2]),
        pbox_dec2(m[0], m[1], m[2]),
    ]
}

/// One full decryption round under round key `k`.
pub open spec fn dec_round(m: Seq<u8>, k: Seq<u8>) -> Seq<u8> {
    xor3(sub_layer_dec(perm_layer_dec(m)), k)
}

/// Decryption rounds under round keys `rk[n-1], ..., rk[0]`, in that order.
pub open spec fn dec_rounds(m: Seq<u8>, rk: Seq<Seq<u8>>, n: nat) -> Seq<u8>
    decreases n,
{
    if n == 0 {
        m
    } else {
        dec_rounds(dec_round(m, rk[n - 1]), rk, (n - 1) as nat)
    }
}

/// The whole inverse transform: undo the final key mixing, then ten rounds.
pub open spec fn decrypt_spec(c: Seq<u8>, rk: Seq<Seq<u8>>) -> Seq<u8> {
    dec_rounds(xor3(c, rk[10]), rk, 10)
}

/// The decryption S-box on one byte, high and low nibble independently.
fn sbox_decrypt(byte: u8) -> (r: u8)
    ensures
        r == sbox_dec_byte(byte),
{
    let hi: u8 = sbox_nibble_dec((byte & 0xf0) >> 4);
    let lo: u8 = sbox_nibble_dec(byte & 0x0f);
    (hi << 4) | lo
}

fn sbox_nibble_dec(n: u8) -> (r: u8)
    ensures
        r == sbox_dec_nibble(n),
{
    if n == 0x0 { 0x05 } else if n == 0x1 { 0x0e } else if n == 0x2 { 0x0f }
    else if n == 0x3 { 0x08 } else if n == 0x4 { 0x0c } else if n == 0x5 { 0x01 }
    else if n == 0x6 { 0x02 } else if n == 0x7 { 0x0d } else if n == 0x8 { 0x0b }
    else if n == 0x9 { 0x04 } else if n == 0xa { 0x06 } else if n == 0xb { 0x03 }
    else if n == 0xc { 0x00 } else if n == 0xd { 0x07 } else if n == 0xe { 0x09 }
    else { 0x0a }
}

fn pbox_decrypt(m: &Message) -> (r: Message)
    ensures
        r@ == perm_layer_dec(m@),
{
    let m0: u8 = m[0];
    let m1: u8 = m[1];
    let m2: u8 = m[2];
    let r: Message = [
        (m0 & 0x80)        | ((m0 & 0x02) << 5) |
        ((m1 & 0x08) << 2) | ((m2 & 0x20) >> 1) |
        ((m0 & 0x40) >> 3) | ((m0 & 0x01) << 2) |
        ((m1 & 0x04) >> 1) | ((m2 & 0x10) >> 4),

        ((m0 & 0x20) << 2) | ((m1 & 0x80) >> 1) |
        ((m1 & 0x02) << 4) | ((m2 & 0x08) << 1) |
        ((m0 & 0x10) >> 1) | ((m1 & 0x40) >> 4) |
        ((m1 & 0x01) << 1) | ((m2 & 0x04) >> 2),

        ((m0 & 0x08) << 4) | ((m1 & 0x20) << 1) |
        ((m2 & 0x80) >> 2) | ((m2 & 0x02) << 3) |
        ((m0 & 0x04) << 1) | ((m1 & 0x10) >> 2) |
        ((m2 & 0x40) >> 5) | (m2 & 0x01),
    ];
    proof {
        assert(r@ =~= perm_layer_dec(m@));
    }
    r
}

/// Decrypts one block under the given round keys.
#[verifier::loop_isolation(false)]
pub fn present24_decrypt(m: Message, rk: RoundKeys) -> (r: Message)
    ensures
        r@ == decrypt_spec(m@, rk_view(rk)),
{
    let mut s: Message = [m[0] ^ rk[10][0], m[1] ^ rk[10][1], m[2] ^ rk[10][2]];
    proof {
        assert(rk[10]@ =~= rk_view(rk)[10]);
        assert(s@ =~= xor3(m@, rk_view(rk)[10]));
    }
    let ghost start: Seq<u8> = s@;
    let mut i: usize = 10;
    while i > 0
        invariant
            i <= 10,
            dec_rounds(s@, rk_view(rk), i as nat) == dec_rounds(start, rk_view(rk), 10),
        decreases i,
    {
        i = i - 1;
        let ghost s_prev: Seq<u8> = s@;
        let p: Message = pbox_decrypt(&s);
        let z0: u8 = sbox_decrypt(p[0]);
        let z1: u8 = sbox_decrypt(p[1]);
        let z2: u8 = sbox_decrypt(p[2]);
        let k: [u8; 3] = rk[i];
        s = [z0 ^ k[0], z1 ^ k[1], z2 ^ k[2]];
        proof {
            assert(k@ =~= rk_view(rk)[i as int]);
            assert(seq![z0, z1, z2] =~= sub_layer_dec(perm_layer_dec(s_prev)));
            assert(s@ =~= dec_round(s_prev, rk_view(rk)[i as int]));
        }
    }
    s
}

proof fn lemma_xor_cancel(a: u8, b: u8)
    ensures
        (a ^ b) ^ b == a,
{
    assert((a ^ b) ^ b == a) by (bit_vector);
}

proof fn lemma_sbox_nibble_inverse()
    ensures
        forall|n: u8| n < 16 ==> #[trigger] sbox_dec_nibble(sbox_enc_nibble(n)) == n,
        forall|n: u8| #[trigger] sbox_enc_nibble(n) < 16,
{
}

proof fn lemma_sbox_byte_inverse(b: u8)
    ensures
        sbox_dec_byte(sbox_enc_byte(b)) == b,
{
    lemma_sbox_nibble_inverse();
    let hi: u8 = (b & 0xf0) >> 4;
    let lo: u8 = b & 0x0f;
    assert(hi < 16 && lo < 16) by (bit_vector)
        requires
            hi == (b & 0xf0) >> 4,
            lo == b & 0x0f,
    ;
    let eh: u8 = sbox_enc_nibble(hi);
    let el: u8 = sbox_enc_nibble(lo);
    let e: u8 = (eh << 4) | el;
    assert((e & 0xf0) >> 4 == eh && (e & 0x0f) == el) by (bit_vector)
        requires
            eh < 16,
            el < 16,
            e == (eh << 4) | el,
    ;
    assert(((hi << 4) | lo) == b) by (bit_vector)
        requires
            hi == (b & 0xf0) >> 4,
            lo == b & 0x0f,
    ;
}

proof fn lemma_pbox_inverse(a: u8, b: u8, c: u8)
    ensures
        pbox_dec0(pbox_enc0(a, b, c), pbox_enc1(a, b, c), pbox_enc2(a, b, c)) == a,
        pbox_dec1(pbox_enc0(a, b, c), pbox_enc1(a, b, c), pbox_enc2(a, b, c)) == b,
        pbox_dec2(pbox_enc0(a, b, c), pbox_enc1(a, b, c), pbox_enc2(a, b, c)) == c,
{
    assert(pbox_dec0(pbox_enc0(a, b, c), pbox_enc1(a, b, c), pbox_enc2(a, b, c)) == a)
        by (bit_vector);
    assert(pbox_dec1(pbox_enc0(a, b, c), pbox_enc1(a, b, c), pbox_enc2(a, b, c)) == b)
        by (bit_vector);
    assert(pbox_dec2(pbox_enc0(a, b, c), pbox_enc1(a, b, c), pbox_enc2(a, b, c)) == c)
        by (bit_vector);
}

proof fn lemma_round_inverse(m: Seq<u8>, k: Seq<u8>)
    requires
        m.len() == 3,
    ensures
        dec_round(enc_round(m, k), k) == m,
{
    let x = xor3(m, k);
    let y = sub_layer_enc(x);
    let z = perm_layer_enc(y);
    lemma_pbox_inverse(y[0], y[1], y[2]);
    assert(perm_layer_dec(z) =~= y);
    lemma_sbox_byte_inverse(x[0]);
    lemma_sbox_byte_inverse(x[1]);
    lemma_sbox_byte_inverse(x[2]);
    assert(sub_layer_dec(y) =~= x);
    lemma_xor_cancel(m[0], k[0]);
    lemma_xor_cancel(m[1], k[1]);
    lemma_xor_cancel(m[2], k[2]);
    assert(xor3(x, k) =~= m);
}

proof fn lemma_enc_rounds_len(m: Seq<u8>, rk: Seq<Seq<u8>>, n: nat)
    requires
        m.len() == 3,
    ensures
        enc_rounds(m, rk, n).len() == 3,
    decreases n,
{
    if n > 0 {
        lemma_enc_rounds_len(m, rk, (n - 1) as nat);
    }
}

proof fn lemma_rounds_inverse(m: Seq<u8>, rk: Seq<Seq<u8>>, n: nat)
    requires
        m.len() == 3,
    ensures
        dec_rounds(enc_rounds(m, rk, n), rk, n) == m,
    decreases n,
{
    if n > 0 {
        lemma_rounds_inverse(m, rk, (n - 1) as nat);
        let e = enc_rounds(m, rk, (n - 1) as nat);
        lemma_enc_rounds_len(m, rk, (n - 1) as nat);
        lemma_round_inverse(e, rk[n - 1]);
    }
}

/// Decrypting an encryption yields the plaintext back, under any round keys:
/// for every 3-byte block `m` and round-key sequence `rk`,
/// `decrypt_spec(encrypt_spec(m, rk), rk) == m`.
pub proof fn lemma_encrypt_then_decrypt(m: Seq<u8>, rk: Seq<Seq<u8>>)
    requires
        m.len() == 3,
    ensures
        decrypt_spec(encrypt_spec(m, rk), rk) == m,
{
    let e10 = enc_rounds(m, rk, 10);
    lemma_enc_rounds_len(m, rk, 10);
    lemma_xor_cancel(e10[0], rk[10][0]);
    lemma_xor_cancel(e10[1], rk[10][1]);
    lemma_xor_cancel(e10[2], rk[10][2]);
    assert(xor3(xor3(e10, rk[10]), rk[10]) =~= e10);
    lemma_rounds_inverse(m, rk, 10);
}

} // verus!
