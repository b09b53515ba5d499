//! The PRESENT24 key schedule: an 80-bit shift register, loaded with the
//! 24-bit key, rotated by 61 bits each step, with an S-box on its top nibble
//! and a round counter mixed in; each step's bits 39..16 form one round key.

use crate::Key;
use crate::RoundKeys;
use crate::decrypt::decrypt_spec;
use crate::decrypt::lemma_encrypt_then_decrypt;
use crate::encrypt::encrypt_spec;
use crate::encrypt::sbox_enc_byte;
use crate::encrypt::sbox_encrypt;
use crate::rk_view;
use vstd::prelude::*;

verus! {

/// The register as first loaded: the key in the top three bytes, zeros below.
pub open spec fn reg_init(k: Seq<u8>) -> Seq<u8> {
    seq![k[0], k[1], k[2], 0u8, 0u8, 0u8, 0u8, 0u8, 0u8, 0u8]
}

/// One key-schedule step applied to register `r` for round index `i`.
pub open spec fn reg_next(r: Seq<u8>, i: int) -> Seq<u8> {
    let t0: u8 = (r[7] << 5) | (r[8] >> 3);
    let t1: u8 = (r[8] << 5) | (r[9] >> 3);
    let t2: u8 = (r[9] << 5) | (r[0] >> 3);
    let t3: u8 = (r[0] << 5) | (r[1] >> 3);
    let t4: u8 = (r[1] << 5) | (r[2] >> 3);
    let t5: u8 = (r[2] << 5) | (r[3] >> 3);
    let t6: u8 = (r[3] << 5) | (r[4] >> 3);
    let t7: u8 = (r[4] << 5) | (r[5] >> 3);
    let t8: u8 = (r[5] << 5) | (r[6] >> 3);
    let t9: u8 = (r[6] << 5) | (r[7] >> 3);
    let t0s: u8 = (sbox_enc_byte(t0) & 0xf0) | (t0 & 0x0f);
    let t7x: u8 = t7 ^ (((i + 1) as u8) >> 1);
    let t8x: u8 = t8 ^ (((i + 1) as u8) << 7);
    seq![t0s, t1, t2, t3, t4, t5, t6, t7x, t8x, t9]
}

/// The register after `i` key-schedule steps from key `k`.
pub open spec fn reg_at(k: Seq<u8>, i: int) -> Seq<u8>
    decreases i,
{
    if i <= 0 {
        reg_init(k)
    } else {
        reg_next(reg_at(k, i - 1), i - 1)
    }
}

/// Round key `i`: bytes 5, 6 and 7 of the register after `i` steps.
pub open spec fn round_key(k: Seq<u8>, i: int) -> Seq<u8> {
    seq![reg_at(k, i)[5], reg_at(k, i)[6], reg_at(k, i)[7]]
}

/// The eleven round keys derived from key `k`.
pub open spec fn schedule_spec(k: Seq<u8>) -> Seq<Seq<u8>> {
    Seq::new(11, |i: int| round_key(k, i))
}

/// Derives the eleven round keys from a 24-bit key.
#[verifier::loop_isolation(false)]
pub fn generate_round_keys(k: Key) -> (rk: RoundKeys)
    ensures
        rk_view(rk) == schedule_spec(k@),
{
    let mut rk: RoundKeys = [[0x00u8; 3]; 11];
    let mut reg: [u8; 10] = [
        k[0], k[1], k[2], 0x00, 0x00, 0x00, 0x00, 0x00, 0x00, 0x00,
    ];
    proof {
        assert(reg@ =~= reg_init(k@));
    }
    for i in 0u8..11
        invariant
            reg@ == reg_at(k@, i as int),
            forall|j: int| 0 <= j < i as int ==> #[trigger] rk@[j]@ == round_key(k@, j),
    {
        rk[i as usize] = [reg[5], reg[6], reg[7]];
        proof {
            assert(rk@[i as int]@ =~= round_key(k@, i as int));
        }
        let t0: u8 = (reg[7] << 5) | (reg[8] >> 3);
        let t1: u8 = (reg[8] << 5) | (reg[9] >> 3);
        let t2: u8 = (reg[9] << 5) | (reg[0] >> 3);
        let t3: u8 = (reg[0] << 5) | (reg[1] >> 3);
        let t4: u8 = (reg[1] << 5) | (reg[2] >> 3);
        let t5: u8 = (reg[2] << 5) | (reg[3] >> 3);
        let t6: u8 = (reg[3] << 5) | (reg[4] >> 3);
        let t7: u8 = (reg[4] << 5) | (reg[5] >> 3);
        let t8: u8 = (reg[5] << 5) | (reg[6] >> 3);
        let t9: u8 = (reg[6] << 5) | (reg[7] >> 3);
        let t0s: u8 = (sbox_encrypt(t0) & 0xf0) | (t0 & 0x0f);
        let t7x: u8 = t7 ^ ((i + 1) >> 1);
        let t8x: u8 = t8 ^ ((i + 1) << 7);
        let ghost reg_prev: Seq<u8> = reg@;
        reg = [t0s, t1, t2, t3, t4, t5, t6, t7x, t8x, t9];
        proof {
            assert(((i as int + 1) as u8) == i + 1);
            assert(reg@ =~= reg_next(reg_prev, i as int));
        }
    }
    proof {
        assert(rk_view(rk) =~~= schedule_spec(k@));
    }
    rk
}

/// Round-trip law: for every key `k` and every 3-byte plaintext `m`,
/// decrypting the encryption of `m` under `k`'s round keys yields `m`.
pub proof fn lemma_round_trip(m: Seq<u8>, k: Seq<u8>)
    requires
        m.len() == 3,
    ensures
        decrypt_spec(encrypt_spec(m, schedule_spec(k)), schedule_spec(k)) == m,
{
    lemma_encrypt_then_decrypt(m, schedule_spec(k));
}

} // verus!
