use present24::decrypt::present24_decrypt;
use present24::encrypt::present24_encrypt;
use present24::encrypt::sbox_encrypt;
use present24::utils::generate_round_keys;

#[test]
fn known_vectors_round_trip() {
    let k = [0x00, 0x00, 0x00];
    let rk = generate_round_keys(k);

    let c1 = present24_encrypt([0x00, 0x00, 0x00], rk);
    assert_eq!(c1, [0xbb, 0x57, 0xe6]);
    assert_eq!(present24_decrypt(c1, rk), [0x00, 0x00, 0x00]);

    let c2 = present24_encrypt([0xff, 0xff, 0xff], rk);
    assert_eq!(c2, [0x73, 0x92, 0x93]);
    assert_eq!(present24_decrypt(c2, rk), [0xff, 0xff, 0xff]);
}

#[test]
fn round_trip_many_keys() {
    // Decrypting an encryption returns the plaintext, across a spread of
    // keys and messages.
    for t in 0u32..200 {
        let x = t.wrapping_mul(0x9e3779b9) ^ (t << 11);
        let k = [(x >> 16) as u8, (x >> 8) as u8, x as u8];
        let y = x.wrapping_mul(0x85ebca6b) ^ 0x5bd1e995;
        let m = [(y >> 16) as u8, (y >> 8) as u8, y as u8];
        let rk = generate_round_keys(k);
        let c = present24_encrypt(m, rk);
        assert_eq!(present24_decrypt(c, rk), m);
    }
}

#[test]
fn sbox_both_nibbles() {
    // The S-box maps each nibble independently: 0x0 -> 0xc, 0xf -> 0x2.
    assert_eq!(sbox_encrypt(0x00), 0xcc);
    assert_eq!(sbox_encrypt(0xff), 0x22);
    assert_eq!(sbox_encrypt(0x0f), 0xc2);
    assert_eq!(sbox_encrypt(0xf0), 0x2c);
}
